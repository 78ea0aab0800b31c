//! What the hyper server decides: who a client is, how much of a body is read, and
//! the headers of a reply.

use vstd::prelude::*;
use vstd::utf8::*;

use crate::app;
use crate::app::{Reply, ReplyView};
use crate::server_mini;
use crate::text;

verus! {

/// The headers of a reply, in order: a redirect has a location, any other a media
/// type.
pub open spec fn reply_headers(r: ReplyView, origin: Seq<char>) -> Seq<(Seq<char>, Seq<char>)> {
    seq![
        ("access-control-allow-origin"@, origin),
        ("access-control-allow-methods"@, "GET,POST,PATCH,DELETE,OPTIONS"@),
        ("access-control-allow-headers"@, "content-type"@),
        ("access-control-max-age"@, "86400"@),
        match r.location {
            Some(loc) => ("location"@, loc),
            None => ("content-type"@, server_mini::media_type(r)),
        },
    ]
}

/// Names and values.
pub open spec fn header_texts(v: Seq<(String, String)>) -> Seq<(Seq<char>, Seq<char>)> {
    Seq::new(v.len(), |i: int| (v[i].0@, v[i].1@))
}

/// The headers of a reply, in order.
pub fn response_headers(r: &Reply, origin: &str) -> (h: Vec<(String, String)>)
    ensures
        header_texts(h@) == reply_headers(r@, origin@),
{
    let mut h: Vec<(String, String)> = Vec::new();
    h.push(("access-control-allow-origin".to_string(), origin.to_string()));
    h.push(
        (
            "access-control-allow-methods".to_string(),
            "GET,POST,PATCH,DELETE,OPTIONS".to_string(),
        ),
    );
    h.push(("access-control-allow-headers".to_string(), "content-type".to_string()));
    h.push(("access-control-max-age".to_string(), "86400".to_string()));
    match &r.location {
        Some(loc) => {
            h.push(("location".to_string(), loc.clone()));
        },
        None => {
            let c: &'static str = match r.ctype {
                Some(c) => c,
                None => "application/json",
            };
            h.push(("content-type".to_string(), c.to_string()));
        },
    }
    assert(header_texts(h@) =~= reply_headers(r@, origin@));
    h
}

/// The first of the addresses that a request was forwarded for.
pub open spec fn first_address(list: Seq<char>) -> Seq<char> {
    text::trim(list.take(text::char_index(list, 0, ',')))
}

/// Who sends a request: behind a proxy that is trusted the first address that it
/// names, if it names one, else the peer.
pub open spec fn client_of(trust: bool, forwarded: Option<Seq<char>>, peer: Seq<char>) -> Seq<
    char,
> {
    match forwarded {
        Some(list) => if trust && first_address(list).len() > 0 {
            first_address(list)
        } else {
            peer
        },
        None => peer,
    }
}

/// Who sends a request.
pub fn client_ip(trust: bool, forwarded: Option<&str>, peer: &str) -> (r: String)
    ensures
        r@ == client_of(
            trust,
            match forwarded {
                Some(f) => Some(f@),
                None => None,
            },
            peer@,
        ),
{
    if trust {
        if let Some(f) = forwarded {
            let list: Vec<char> = text::chars_of(f);
            let p: usize = text::find_char(&list, ',');
            let part: Vec<char> = text::sub_chars(&list, 0, p);
            assert(part@ =~= list@.take(p as int));
            let first: Vec<char> = text::trimmed(&part);
            if first.len() > 0 {
                return text::string_of(&first);
            }
        }
    }
    peer.to_string()
}

/// The body of a request, as it comes in.
pub struct Intake {
    body: Vec<u8>,
    limit: usize,
    over: bool,
}

/// The body of a request, as it comes in.
#[verifier::ext_equal]
pub ghost struct IntakeView {
    /// What came in.
    pub body: Seq<u8>,
    /// How much may come in.
    pub limit: int,
    /// More came in.
    pub over: bool,
}

impl View for Intake {
    type V = IntakeView;

    closed spec fn view(&self) -> IntakeView {
        IntakeView { body: self.body@, limit: self.limit as int, over: self.over }
    }
}

/// What came in, with one more chunk: one that is too much is left out, and so is
/// all that comes behind it.
pub open spec fn taken_in(v: IntakeView, chunk: Seq<u8>) -> IntakeView {
    if v.over || v.body.len() + chunk.len() > v.limit {
        IntakeView { over: true, ..v }
    } else {
        IntakeView { body: v.body + chunk, ..v }
    }
}

/// What came in of some chunks.
pub open spec fn all_taken_in(v: IntakeView, chunks: Seq<Seq<u8>>) -> IntakeView
    decreases chunks.len(),
{
    if chunks.len() == 0 {
        v
    } else {
        taken_in(all_taken_in(v, chunks.drop_last()), chunks.last())
    }
}

/// The body of a request to that path, before anything came in.
pub open spec fn intake_for(path: Seq<char>) -> IntakeView {
    IntakeView { body: Seq::empty(), limit: app::limit_of(path), over: false }
}

/// The body, unless more came in than may.
pub open spec fn body_in(v: IntakeView) -> Option<Seq<u8>> {
    if v.over {
        None
    } else {
        Some(v.body)
    }
}

impl Intake {
    /// No more came in than may.
    pub closed spec fn wf(&self) -> bool {
        self.body@.len() <= self.limit
    }

    /// The body of a request to that path, before anything came in.
    pub fn new(path: &str) -> (r: Intake)
        ensures
            r.wf(),
            r@ == intake_for(path@),
    {
        let r: Intake = Intake { body: Vec::new(), limit: app::body_limit(path), over: false };
        assert(r@.body =~= Seq::empty());
        r
    }

    /// Takes in a chunk. False if it is too much: the request is then refused.
    pub fn add(&mut self, chunk: &[u8]) -> (r: bool)
        requires
            old(self).wf(),
        ensures
            final(self).wf(),
            final(self)@ == taken_in(old(self)@, chunk@),
            r == !final(self)@.over,
    {
        if self.over || chunk.len() > self.limit - self.body.len() {
            self.over = true;
            return false;
        }
        text::put_bytes(&mut self.body, chunk);
        true
    }

    /// The body, unless more came in than may.
    pub fn finish(self) -> (r: Option<Vec<u8>>)
        ensures
            (match r {
                Some(b) => Some(b@),
                None => None,
            }) == body_in(self@),
    {
        if self.over {
            None
        } else {
            Some(self.body)
        }
    }
}

/// The length of some chunks.
pub open spec fn length(chunks: Seq<Seq<u8>>) -> int
    decreases chunks.len(),
{
    if chunks.len() == 0 {
        0
    } else {
        length(chunks.drop_last()) + chunks.last().len()
    }
}

/// A body is refused if and only if it is longer than allowed, however it is cut
/// into chunks.
pub proof fn law_refused_by_length(limit: int, chunks: Seq<Seq<u8>>)
    requires
        limit >= 0,
    ensures
        ({
            let v = all_taken_in(
                IntakeView { body: Seq::empty(), limit, over: false },
                chunks,
            );
            &&& v.over <==> length(chunks) > limit
            &&& !v.over ==> v.body == chunks.flatten()
        }),
{
    lemma_intake(limit, chunks);
}

proof fn lemma_intake(limit: int, chunks: Seq<Seq<u8>>)
    requires
        limit >= 0,
    ensures
        ({
            let v = all_taken_in(
                IntakeView { body: Seq::empty(), limit, over: false },
                chunks,
            );
            &&& v.limit == limit
            &&& v.over <==> length(chunks) > limit
            &&& !v.over ==> v.body == chunks.flatten() && v.body.len() == length(chunks)
        }),
    decreases chunks.len(),
{
    if chunks.len() == 0 {
        assert(chunks.flatten() =~= Seq::<u8>::empty());
    } else {
        lemma_intake(limit, chunks.drop_last());
        chunks.lemma_flatten_and_flatten_alt_are_equivalent();
        chunks.drop_last().lemma_flatten_and_flatten_alt_are_equivalent();
    }
}

/// A body is read whole, however it is cut into chunks, unless it is longer than the path
/// allows.
pub proof fn law_body_is_read_whole(path: Seq<char>, chunks: Seq<Seq<u8>>)
    ensures
        body_in(all_taken_in(intake_for(path), chunks)) == (if length(chunks) > app::limit_of(
            path,
        ) {
            None
        } else {
            Some(chunks.flatten())
        }),
{
    law_refused_by_length(app::limit_of(path), chunks);
}

} // verus!
