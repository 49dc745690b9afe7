//! Locating needle characters in a haystack: the subsequence relation that
//! decides whether a fuzzy match exists, and the searches that find it.
use vstd::prelude::*;

use crate::chars::{fold_latin, lower, norm_char};
use crate::utf32_str::{ascii_bytes, bytes_chars, Utf32Str};

verus! {

/// Relies on `memchr::memchr`: the first index of `b`, if any.
#[verifier::external_body]
fn memchr_first(b: u8, hay: &[u8]) -> (r: Option<usize>)
    ensures
        r is None ==> forall|i: int| 0 <= i < hay@.len() ==> hay@[i] != b,
        r is Some ==> r->0 < hay@.len() && hay@[r->0 as int] == b && forall|i: int|
            0 <= i < r->0 ==> hay@[i] != b,
{
    memchr::memchr(b, hay)
}

/// Relies on `memchr::memchr2`: the first index of `b1` or `b2`, if any.
#[verifier::external_body]
fn memchr2_first(b1: u8, b2: u8, hay: &[u8]) -> (r: Option<usize>)
    ensures
        r is None ==> forall|i: int| 0 <= i < hay@.len() ==> hay@[i] != b1 && hay@[i] != b2,
        r is Some ==> r->0 < hay@.len() && (hay@[r->0 as int] == b1 || hay@[r->0 as int]
            == b2) && forall|i: int| 0 <= i < r->0 ==> hay@[i] != b1 && hay@[i] != b2,
{
    memchr::memchr2(b1, b2, hay)
}

/// Whether `ns[j..]` occurs as a subsequence of `hs[i..]`.
pub open spec fn embeds_from(hs: Seq<char>, ns: Seq<char>, i: int, j: int) -> bool
    decreases hs.len() - i,
{
    if j >= ns.len() {
        true
    } else if i >= hs.len() {
        false
    } else if hs[i] == ns[j] {
        embeds_from(hs, ns, i + 1, j + 1)
    } else {
        embeds_from(hs, ns, i + 1, j)
    }
}

/// Whether the needle occurs in the haystack with gaps allowed.
pub open spec fn fuzzy_matches(hs: Seq<char>, ns: Seq<char>) -> bool {
    embeds_from(hs, ns, 0, 0)
}

/// `p` is the first position at or after `from` that holds `c`.
pub open spec fn first_from(hs: Seq<char>, c: char, from: int, p: int) -> bool {
    &&& from <= p < hs.len()
    &&& hs[p] == c
    &&& forall|k: int| from <= k < p ==> hs[k] != c
}

/// No position at or after `from` holds `c`.
pub open spec fn absent_from(hs: Seq<char>, c: char, from: int) -> bool {
    forall|k: int| from <= k < hs.len() ==> hs[k] != c
}

/// Skipping to the first occurrence of the next needle character keeps
/// the subsequence relation.
pub proof fn lemma_embeds_skip(hs: Seq<char>, ns: Seq<char>, i: int, j: int, p: int)
    requires
        0 <= j < ns.len(),
        0 <= i,
        first_from(hs, ns[j], i, p),
    ensures
        embeds_from(hs, ns, i, j) == embeds_from(hs, ns, p + 1, j + 1),
    decreases p - i,
{
    if i < p {
        lemma_embeds_skip(hs, ns, i + 1, j, p);
    }
}

/// A missing needle character rules the subsequence out.
pub proof fn lemma_embeds_absent(hs: Seq<char>, ns: Seq<char>, i: int, j: int)
    requires
        0 <= j < ns.len(),
        0 <= i,
        absent_from(hs, ns[j], i),
    ensures
        !embeds_from(hs, ns, i, j),
    decreases hs.len() - i,
{
    if i < hs.len() {
        lemma_embeds_absent(hs, ns, i + 1, j);
    }
}

/// The needle cannot embed in fewer characters than it has.
pub proof fn lemma_embeds_len(hs: Seq<char>, ns: Seq<char>, i: int, j: int)
    requires
        0 <= i,
        0 <= j <= ns.len(),
        embeds_from(hs, ns, i, j),
    ensures
        ns.len() - j <= hs.len() - i || j >= ns.len(),
    decreases hs.len() - i,
{
    if j < ns.len() && i < hs.len() {
        if hs[i] == ns[j] {
            lemma_embeds_len(hs, ns, i + 1, j + 1);
        } else {
            lemma_embeds_len(hs, ns, i + 1, j);
        }
    }
}

/// With as many haystack as needle characters left, embedding is equality.
pub proof fn lemma_embeds_equal_len(hs: Seq<char>, ns: Seq<char>, i: int, j: int)
    requires
        0 <= i <= hs.len(),
        0 <= j <= ns.len(),
        hs.len() - i == ns.len() - j,
    ensures
        embeds_from(hs, ns, i, j) == (hs.subrange(i, hs.len() as int) == ns.subrange(
            j,
            ns.len() as int,
        )),
    decreases hs.len() - i,
{
    if j < ns.len() {
        lemma_embeds_equal_len(hs, ns, i + 1, j + 1);
        if hs[i] != ns[j] {
            if embeds_from(hs, ns, i + 1, j) {
                lemma_embeds_len(hs, ns, i + 1, j);
            }
            assert(hs.subrange(i, hs.len() as int)[0] != ns.subrange(j, ns.len() as int)[0]);
        } else {
            assert(hs.subrange(i, hs.len() as int) == seq![hs[i]] + hs.subrange(
                i + 1,
                hs.len() as int,
            ));
            assert(ns.subrange(j, ns.len() as int) == seq![ns[j]] + ns.subrange(
                j + 1,
                ns.len() as int,
            ));
            if hs.subrange(i, hs.len() as int) == ns.subrange(j, ns.len() as int) {
                assert(hs.subrange(i + 1, hs.len() as int) =~= hs.subrange(
                    i,
                    hs.len() as int,
                ).drop_first());
                assert(ns.subrange(j + 1, ns.len() as int) =~= ns.subrange(
                    j,
                    ns.len() as int,
                ).drop_first());
            }
        }
    } else {
        assert(hs.subrange(i, hs.len() as int) =~= ns.subrange(j, ns.len() as int));
    }
}

/// How an ASCII byte compares after normalization: case folding is the
/// only change normalization makes to ASCII.
pub proof fn lemma_ascii_norm(x: u8, normalize: bool, ignore_case: bool)
    requires
        x < 128,
    ensures
        norm_char(x as char, normalize, ignore_case) == (if ignore_case && 0x41 <= x <= 0x5A {
            ((x + 32) as u8) as char
        } else {
            x as char
        }),
{
    assert(fold_latin(x as char) == x as char);
    if ignore_case {
        assert(lower(x as char) == (if 0x41 <= x <= 0x5A {
            ((x + 32) as u8) as char
        } else {
            x as char
        }));
    }
}

/// The characters of a `Utf32Str`.
pub fn chars_of(s: Utf32Str) -> (r: Vec<char>)
    ensures
        r@ == s@,
{
    let mut out: Vec<char> = Vec::new();
    let n = s.len();
    let mut i: usize = 0;
    while i < n
        invariant
            n == s@.len(),
            i <= n,
            out@ == s@.subrange(0, i as int),
        decreases n - i,
    {
        out.push(s.char_at(i));
        i += 1;
        assert(out@ =~= s@.subrange(0, i as int));
    }
    assert(out@ =~= s@);
    out
}

/// First position at or after `from` whose character is `c`.
pub fn find_char(hs: &Vec<char>, c: char, from: usize) -> (r: Option<usize>)
    requires
        from <= hs@.len(),
    ensures
        r is Some ==> first_from(hs@, c, from as int, r->0 as int),
        r is None ==> absent_from(hs@, c, from as int),
{
    let mut i = from;
    while i < hs.len()
        invariant
            from <= i <= hs@.len(),
            forall|k: int| from <= k < i ==> hs@[k] != c,
        decreases hs@.len() - i,
    {
        if hs[i] == c {
            return Some(i);
        }
        i += 1;
    }
    None
}

/// First position at or after `from` whose normalized character is `c`,
/// searched in the ASCII bytes `b` (whose normalized characters are `hs`).
pub fn find_ascii(
    b: &[u8],
    hs: &Vec<char>,
    c: char,
    from: usize,
    normalize: bool,
    ignore_case: bool,
) -> (r: Option<usize>)
    requires
        from <= hs@.len(),
        ascii_bytes(b@),
        hs@ == bytes_chars(b@).map_values(|x: char| norm_char(x, normalize, ignore_case)),
    ensures
        r is Some ==> first_from(hs@, c, from as int, r->0 as int),
        r is None ==> absent_from(hs@, c, from as int),
{
    let cp = c as u32;
    let ghost len = b@.len();
    assert(hs@.len() == b@.len());
    if cp >= 128 {
        proof {
            assert forall|k: int| from <= k < hs@.len() implies hs@[k] != c by {
                lemma_ascii_norm(b@[k], normalize, ignore_case);
            }
        }
        return None;
    }
    let x = cp as u8;
    if ignore_case && x >= 0x41 && x <= 0x5A {
        // case folding leaves no uppercase ASCII letter behind
        proof {
            assert forall|k: int| from <= k < hs@.len() implies hs@[k] != c by {
                let y = b@[k];
                lemma_ascii_norm(y, normalize, ignore_case);
                assert((y as char) as u32 == y as u32);
                assert((((y + 32) as u8) as char) as u32 == (y + 32) as u32);
                assert((c as u32) == x as u32);
            }
        }
        return None;
    }
    let tail = vstd::slice::slice_subrange(b, from, b.len());
    let found = if ignore_case && x >= 0x61 && x <= 0x7A {
        memchr2_first(x, x - 32, tail)
    } else {
        memchr_first(x, tail)
    };
    proof {
        assert forall|k: int| from <= k < hs@.len() implies (hs@[k] == c) == (tail@[k - from]
            == x || (ignore_case && 0x61 <= x <= 0x7A && tail@[k - from] == x - 32)) by {
            let y = b@[k];
            assert(tail@[k - from] == y);
            lemma_ascii_norm(y, normalize, ignore_case);
            assert(hs@[k] == norm_char(y as char, normalize, ignore_case));
            assert((x as char) == c);
            assert((y as char) as u32 == y as u32);
            assert((((y + 32) as u8) as char) as u32 == (y + 32) as u32);
            assert((c as u32) == x as u32);
        }
    }
    match found {
        Some(p) => {
            let r = from + p;
            proof {
                assert forall|k: int| from <= k < r implies hs@[k] != c by {
                    assert(k - from < p);
                }
            }
            Some(r)
        },
        None => {
            proof {
                assert forall|k: int| from <= k < hs@.len() implies hs@[k] != c by {
                    assert(0 <= k - from < tail@.len());
                }
            }
            None
        },
    }
}

} // verus!
