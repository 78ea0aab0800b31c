//! The settings of the program, and what it does with them.

use vstd::prelude::*;
use vstd::utf8::*;

use crate::store;
use crate::text;

verus! {

/// A setting that is a number.
pub fn env_int(v: Option<&str>, def: i64) -> (r: i64)
    ensures
        r == store::setting(store::opt_text(v), def),
{
    store::read_setting(v, def)
}

/// A setting that is a text.
pub fn env_str(v: Option<&str>, def: &str) -> (r: String)
    ensures
        r@ == store::text_setting(store::opt_text(v), def@),
{
    match v {
        Some(s) => s.to_string(),
        None => def.to_string(),
    }
}

/// The port to listen on.
pub fn port(v: Option<&str>) -> (r: i64)
    ensures
        r == store::setting(store::opt_text(v), 3000),
{
    env_int(v, 3000)
}

/// The directory of the logs.
pub fn data_dir(v: Option<&str>) -> (r: String)
    ensures
        r@ == store::text_setting(store::opt_text(v), "data"@),
{
    env_str(v, "data")
}

/// What a process does: how many links it stores first where there are none, and
/// how many workers it starts; without workers it serves.
#[derive(PartialEq, Eq, Structural)]
pub struct Role {
    pub seed: usize,
    pub workers: Option<usize>,
}

/// A count that a setting gives; none if it is not above zero.
pub open spec fn count_of(n: i64) -> int {
    if n > 0 {
        if n <= usize::MAX {
            n as int
        } else {
            usize::MAX as int
        }
    } else {
        0
    }
}

fn count(n: i64) -> (r: usize)
    ensures
        r == count_of(n),
{
    if n > 0 {
        if n as u64 <= usize::MAX as u64 {
            n as usize
        } else {
            usize::MAX
        }
    } else {
        0
    }
}

/// What a process does: only one that no other has started may start workers.
pub fn role(workers: i64, seed: i64, child: bool) -> (r: Role)
    ensures
        r.seed == count_of(seed),
        r.workers is Some <==> workers > 1 && !child,
        r.workers matches Some(n) ==> n == count_of(workers),
{
    Role {
        seed: count(seed),
        workers: if workers > 1 && !child {
            Some(count(workers))
        } else {
            None
        },
    }
}

/// The url of link `i` of those that are stored first.
pub open spec fn seed_url(i: int) -> Seq<u8> {
    text::lit("https://example.com/") + text::decimal(i)
}

/// The urls of the links that are stored first.
pub fn seed_urls(n: usize) -> (r: Vec<String>)
    ensures
        r@.len() == n,
        forall|i: int| 0 <= i < n ==> encode_utf8(#[trigger] r@[i]@) == seed_url(i),
{
    let mut r: Vec<String> = Vec::new();
    let mut i: usize = 0;
    proof {
        reveal_strlit("https://example.com/");
        let b = seq![104u8, 116, 116, 112, 115, 58, 47, 47, 101, 120, 97, 109, 112, 108, 101, 46, 99, 111, 109, 47];
        assert("https://example.com/"@ =~= text::ascii_text(b));
        text::lemma_lit("https://example.com/"@, b);
        assert(text::ascii(text::lit("https://example.com/")));
    }
    while i < n
        invariant
            i <= n,
            r@.len() == i,
            text::ascii(text::lit("https://example.com/")),
            forall|k: int| 0 <= k < i ==> encode_utf8(#[trigger] r@[k]@) == seed_url(k),
        decreases n - i,
    {
        let mut b: Vec<u8> = text::copy_bytes("https://example.com/".as_bytes());
        text::put_u64(&mut b, i as u64);
        proof {
            text::lemma_decimal(i as int);
        }
        r.push(text::ascii_string(b.as_slice()));
        i += 1;
    }
    r
}

/// A count is as many as the setting says, and none where it says less than 1.
pub proof fn law_count_is_what_it_says(n: i64)
    ensures
        0 < n <= usize::MAX ==> count_of(n) == n,
        n <= 0 ==> count_of(n) == 0,
{
}

/// No two links that are stored first have the same url.
pub proof fn law_first_links_differ(i: int, k: int)
    requires
        i != k,
    ensures
        seed_url(i) != seed_url(k),
{
    let p = text::lit("https://example.com/");
    assert(seed_url(i).skip(p.len() as int) =~= text::decimal(i));
    assert(seed_url(k).skip(p.len() as int) =~= text::decimal(k));
    text::law_decimal_reads_back(i);
    text::law_decimal_reads_back(k);
}

} // verus!
