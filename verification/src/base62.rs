//! Numbers and code letters in base 62.

use vstd::prelude::*;
use vstd::utf8::*;

use crate::text;

verus! {

/// The 62 digits: 0 to 9, then a to z, then A to Z.
pub const ALPHABET: [u8; 62] = [
    48, 49, 50, 51, 52, 53, 54, 55, 56, 57, 97, 98, 99, 100, 101, 102, 103, 104, 105, 106, 107, 108,
    109, 110, 111, 112, 113, 114, 115, 116, 117, 118, 119, 120, 121, 122, 65, 66, 67, 68, 69, 70, 71,
    72, 73, 74, 75, 76, 77, 78, 79, 80, 81, 82, 83, 84, 85, 86, 87, 88, 89, 90,
];

/// The digit that stands for `d`.
pub open spec fn digit62(d: int) -> u8 {
    if d < 10 {
        (48 + d) as u8
    } else if d < 36 {
        (87 + d) as u8
    } else {
        (29 + d) as u8
    }
}

/// The digit that stands for `d`.
pub fn letter(d: usize) -> (r: u8)
    requires
        d < 62,
    ensures
        r == digit62(d as int),
{
    ALPHABET[d]
}

/// The digits of `n`, most significant first.
pub open spec fn digits62(n: nat) -> Seq<u8>
    decreases n,
{
    if n < 62 {
        seq![digit62(n as int)]
    } else {
        digits62(n / 62).push(digit62((n % 62) as int))
    }
}

/// What a digit stands for, if it is one.
pub open spec fn value62(c: u8) -> Option<int> {
    if 48 <= c <= 57 {
        Some(c - 48)
    } else if 97 <= c <= 122 {
        Some(c - 87)
    } else if 65 <= c <= 90 {
        Some(c - 29)
    } else {
        None
    }
}

/// The number that a run of digits stands for.
pub open spec fn number62(b: Seq<u8>) -> nat
    decreases b.len(),
{
    if b.len() == 0 {
        0
    } else {
        number62(b.drop_last()) * 62 + value62(b.last())->0 as nat
    }
}

proof fn lemma_digits62(n: nat)
    ensures
        forall|k: int| 0 <= k < digits62(n).len() ==> value62(#[trigger] digits62(n)[k]) is Some,
        text::ascii(digits62(n)),
    decreases n,
{
    if n >= 62 {
        lemma_digits62(n / 62);
    }
}

/// A number in base 62 reads back, so two numbers never have the same digits.
pub proof fn law_encode_reads_back(n: nat)
    ensures
        number62(digits62(n)) == n,
    decreases n,
{
    if n < 62 {
        assert(digits62(n).drop_last() =~= Seq::<u8>::empty());
        assert(number62(digits62(n).drop_last()) == 0);
    } else {
        law_encode_reads_back(n / 62);
        assert(digits62(n).drop_last() =~= digits62(n / 62));
    }
}

/// `n` in base 62.
pub fn encode(n: u64) -> (r: String)
    ensures
        encode_utf8(r@) == digits62(n as nat),
{
    let mut low: Vec<u8> = Vec::new();
    let mut v: u64 = n;
    while v >= 62
        invariant
            digits62(n as nat) == digits62(v as nat) + low@.reverse(),
        decreases v,
    {
        let ghost before = low@;
        let ghost was = v as nat;
        low.push(letter((v % 62) as usize));
        v = v / 62;
        assert(digits62(was) =~= digits62(v as nat).push(low@.last()));
        assert(low@.reverse() =~= seq![low@.last()] + before.reverse());
        assert(digits62(v as nat) + low@.reverse() =~= digits62(was) + before.reverse());
    }
    low.push(letter(v as usize));
    proof {
        assert(low@.reverse() =~= digits62(v as nat) + low@.drop_last().reverse());
    }
    let mut b: Vec<u8> = Vec::new();
    let mut k: usize = low.len();
    while k > 0
        invariant
            k <= low@.len(),
            b@ == low@.reverse().take(low@.len() - k),
        decreases k,
    {
        k -= 1;
        b.push(low[k]);
        assert(b@ =~= low@.reverse().take(low@.len() - k));
    }
    assert(b@ =~= digits62(n as nat));
    proof {
        lemma_digits62(n as nat);
    }
    text::ascii_string(b.as_slice())
}

/// What a code letter stands for; -1 if it is none.
pub fn alpha_idx(c: u8) -> (r: i32)
    ensures
        r == -1 <==> value62(c) is None,
        r != -1 ==> value62(c) == Some(r as int) && 0 <= r < 62,
{
    if 48 <= c && c <= 57 {
        (c - 48) as i32
    } else if 97 <= c && c <= 122 {
        (c - 87) as i32
    } else if 65 <= c && c <= 90 {
        (c - 29) as i32
    } else {
        -1
    }
}

/// A digit stands for the number that it was made of.
pub proof fn law_letter_reads_back(d: int)
    requires
        0 <= d < 62,
    ensures
        value62(digit62(d)) == Some(d),
        digit62(d) < 128,
{
}

} // verus!
