//! Links put in order and given out page by page.

use vstd::prelude::*;
use vstd::utf8::*;

use crate::sort;
use crate::sort::Ranked;
use crate::store::{Link, LinkView};
use crate::text;

verus! {

/// In what order links are listed.
#[derive(PartialEq, Eq, Clone, Copy, Structural)]
pub enum Order {
    /// Those with most hits first.
    Hits,
    /// The newest first.
    Created,
}

/// What links are ordered by, the greatest first.
pub open spec fn rank(order: Order, l: LinkView) -> i64 {
    match order {
        Order::Hits => l.hits,
        Order::Created => l.created_at,
    }
}

/// `all` are the links of `found`, put in order; equals keep their order.
pub open spec fn arranged(found: Seq<LinkView>, order: Order, all: Seq<LinkView>) -> bool {
    exists|p: Seq<usize>|
        {
            &&& #[trigger] sort::lists(p, 0, found.len() as int)
            &&& all == Seq::new(p.len(), |k: int| found[p[k] as int])
            &&& forall|j: int, k: int|
                0 <= j < k < p.len() ==> rank(order, found[#[trigger] p[j] as int]) > rank(
                    order,
                    found[#[trigger] p[k] as int],
                ) || (rank(order, found[p[j] as int]) == rank(order, found[p[k] as int]) && p[j]
                    < p[k])
        }
}

/// `limit` of the links, from `offset` on.
pub open spec fn page(all: Seq<LinkView>, limit: int, offset: int) -> Seq<LinkView> {
    let from = if offset < all.len() {
        offset
    } else {
        all.len() as int
    };
    let to = if from + limit < all.len() {
        from + limit
    } else {
        all.len() as int
    };
    all.subrange(from, to)
}

/// A page and the one behind it are a page of both lengths: nothing is left out
/// between them, and nothing comes twice.
pub proof fn law_pages_follow_each_other(all: Seq<LinkView>, offset: int, limit: int, more: int)
    requires
        0 <= offset,
        0 <= limit,
        0 <= more,
    ensures
        page(all, limit, offset) + page(all, more, offset + limit) == page(
            all,
            limit + more,
            offset,
        ),
{
    assert(page(all, limit, offset) + page(all, more, offset + limit) =~= page(
        all,
        limit + more,
        offset,
    ));
}

/// The links of several.
pub open spec fn link_views(v: Seq<Link>) -> Seq<LinkView> {
    Seq::new(v.len(), |i: int| v[i]@)
}

/// A link whose code or url holds the text that is looked for.
pub open spec fn wanted(l: LinkView, q: Seq<char>) -> bool {
    text::holds(encode_utf8(l.code), encode_utf8(q)) || text::holds(
        encode_utf8(l.url),
        encode_utf8(q),
    )
}

/// The order that a request asks for.
pub open spec fn order_of(sort: Seq<char>) -> Order {
    if sort == "hits"@ {
        Order::Hits
    } else {
        Order::Created
    }
}

/// The order that a request asks for.
pub fn order_for(sort: &str) -> (r: Order)
    ensures
        r == order_of(sort@),
{
    if text::same(sort, "hits") {
        Order::Hits
    } else {
        Order::Created
    }
}

struct Rank {
    by: i64,
}

impl Ranked for Rank {
    closed spec fn upto(&self, other: &Self) -> bool {
        self.by >= other.by
    }

    proof fn total(a: &Self, b: &Self) {
    }

    proof fn transitive(a: &Self, b: &Self, c: &Self) {
    }

    fn is_upto(&self, other: &Self) -> (r: bool) {
        self.by >= other.by
    }
}

/// Whether the code or the url of a link holds a text.
pub fn is_wanted(l: &Link, q: &str) -> (r: bool)
    ensures
        r == wanted(l@, q@),
{
    text::contains(l.code.as_str().as_bytes(), q.as_bytes()) || text::contains(
        l.url.as_str().as_bytes(),
        q.as_bytes(),
    )
}

fn copy_link(l: &Link) -> (r: Link)
    ensures
        r@ == l@,
{
    Link {
        code: l.code.clone(),
        url: l.url.clone(),
        hits: l.hits,
        created_at: l.created_at,
        expires_at: l.expires_at,
    }
}

/// Puts links in order and gives out `limit` of them, from `offset` on.
pub fn paginate(items: &Vec<Link>, order: Order, limit: usize, offset: usize) -> (r: Vec<Link>)
    ensures
        exists|all: Seq<LinkView>| #[trigger]
            arranged(link_views(items@), order, all) && link_views(r@) == page(
                all,
                limit as int,
                offset as int,
            ),
{
    let ghost found = link_views(items@);
    let mut ranks: Vec<Rank> = Vec::new();
    let mut i: usize = 0;
    while i < items.len()
        invariant
            i <= items@.len(),
            found == link_views(items@),
            ranks@.len() == i,
            forall|k: int| 0 <= k < i ==> (#[trigger] ranks@[k]).by == rank(order, found[k]),
        decreases items@.len() - i,
    {
        let by: i64 = match order {
            Order::Hits => items[i].hits,
            Order::Created => items[i].created_at,
        };
        ranks.push(Rank { by });
        i += 1;
    }
    let p: Vec<usize> = sort::sorted_positions(&ranks);
    let ghost all = Seq::new(p@.len(), |k: int| found[p@[k] as int]);
    proof {
        assert forall|j: int, k: int| 0 <= j < k < p@.len() implies rank(
            order,
            found[#[trigger] p@[j] as int],
        ) > rank(order, found[#[trigger] p@[k] as int]) || (rank(order, found[p@[j] as int])
            == rank(order, found[p@[k] as int]) && p@[j] < p@[k]) by {
            assert(sort::precedes(ranks@, p@[j] as int, p@[k] as int));
            assert(p@[j] != p@[k]);
        }
        assert(sort::lists(p@, 0, found.len() as int));
        assert(arranged(found, order, all));
    }
    let total: usize = p.len();
    let from: usize = if offset < total {
        offset
    } else {
        total
    };
    let to: usize = if limit < total - from {
        from + limit
    } else {
        total
    };
    let mut r: Vec<Link> = Vec::new();
    let mut k: usize = from;
    while k < to
        invariant
            from <= k <= to <= p@.len(),
            sort::lists(p@, 0, items@.len() as int),
            found == link_views(items@),
            all == Seq::new(p@.len(), |k: int| found[p@[k] as int]),
            r@.len() == k - from,
            forall|m: int| 0 <= m < r@.len() ==> (#[trigger] r@[m])@ == all[from + m],
        decreases to - k,
    {
        r.push(copy_link(&items[p[k]]));
        k += 1;
    }
    assert(link_views(r@) =~= page(all, limit as int, offset as int));
    r
}

/// Links that are put in order are the same links, those with most hits first or the newest
/// first, as was asked for.
pub proof fn law_links_are_put_in_order(
    found: Seq<LinkView>,
    order: Order,
    all: Seq<LinkView>,
    l: LinkView,
    i: int,
    k: int,
)
    requires
        arranged(found, order, all),
    ensures
        all.len() == found.len(),
        all.contains(l) <==> found.contains(l),
        0 <= i < k < all.len() ==> match order {
            Order::Hits => all[i].hits >= all[k].hits,
            Order::Created => all[i].created_at >= all[k].created_at,
        },
{
    let p = choose|p: Seq<usize>|
        {
            &&& #[trigger] sort::lists(p, 0, found.len() as int)
            &&& all == Seq::new(p.len(), |k: int| found[p[k] as int])
            &&& forall|j: int, k: int|
                0 <= j < k < p.len() ==> rank(order, found[#[trigger] p[j] as int]) > rank(
                    order,
                    found[#[trigger] p[k] as int],
                ) || (rank(order, found[p[j] as int]) == rank(order, found[p[k] as int]) && p[j]
                    < p[k])
        };
    if 0 <= i < k < all.len() {
        assert(p[i] != p[k]);
    }
    if all.contains(l) {
        let x = choose|x: int| 0 <= x < all.len() && all[x] == l;
        assert(found[p[x] as int] == l);
    }
    if found.contains(l) {
        let x = choose|x: int| 0 <= x < found.len() && found[x] == l;
        assert(sort::listed(p, x));
        let y = choose|y: int| 0 <= y < p.len() && #[trigger] p[y] == x;
        assert(all[y] == l);
    }
}

/// A page holds the links behind the first `offset`, in order, and as many as `limit`
/// unless there are fewer.
pub proof fn law_page_holds_what_is_asked_for(
    all: Seq<LinkView>,
    limit: int,
    offset: int,
    i: int,
)
    requires
        0 <= limit,
        0 <= offset,
    ensures
        offset >= all.len() ==> page(all, limit, offset).len() == 0,
        offset + limit <= all.len() ==> page(all, limit, offset).len() == limit,
        offset < all.len() < offset + limit ==> page(all, limit, offset).len() == all.len()
            - offset,
        0 <= i < page(all, limit, offset).len() ==> page(all, limit, offset)[i] == all[offset + i],
{
}

} // verus!
