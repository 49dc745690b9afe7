//! Strings indexed by grapheme: either ASCII bytes or one codepoint per grapheme.
use vstd::prelude::*;
use vstd::slice::slice_subrange;
use vstd::std_specs::iter::IteratorSpec;
use vstd::string::{axiom_spec_iter, is_ascii_spec_bytes, next_postcondition};
use unicode_segmentation::UnicodeSegmentation;

use crate::chars::{std_is_whitespace, whitespace_prop};

verus! {

broadcast use {axiom_spec_iter, next_postcondition, is_ascii_spec_bytes};

/// The grapheme clusters that `UnicodeSegmentation::graphemes` (extended)
/// splits a string into.
pub uninterp spec fn graphemes_of(s: Seq<char>) -> Seq<Seq<char>>;

/// Relies on `memchr::memmem::find`: the index of the first occurrence of
/// `needle` in `haystack`, if there is one.
#[verifier::external_body]
fn memmem_find(haystack: &[u8], needle: &[u8]) -> (r: Option<usize>)
    ensures
        r is None <==> !exists|i: int| #[trigger] occurs_at(haystack@, needle@, i),
        r is Some ==> occurs_at(haystack@, needle@, r->0 as int) && forall|i: int|
            0 <= i < r->0 ==> !#[trigger] occurs_at(haystack@, needle@, i),
{
    memchr::memmem::find(haystack, needle)
}

/// Relies on `UnicodeSegmentation::graphemes` with extended clusters.
#[verifier::external_body]
fn split_graphemes<'a>(s: &'a str) -> (r: Vec<&'a str>)
    ensures
        r@.map_values(|g: &str| g@) == graphemes_of(s@),
{
    s.graphemes(true).collect()
}

/// Whether `needle` occurs in `haystack` at position `i`.
pub open spec fn occurs_at<T>(haystack: Seq<T>, needle: Seq<T>, i: int) -> bool {
    0 <= i && i + needle.len() <= haystack.len() && haystack.subrange(i, i + needle.len())
        == needle
}

/// Whether every grapheme of `s` is a single ASCII character: `s` is ASCII
/// and holds no `\r\n`.
pub open spec fn ascii_graphemes(s: Seq<char>) -> bool {
    vstd::utf8::is_ascii_chars(s) && !exists|i: int|
        #![trigger s[i]]
        0 <= i < s.len() - 1 && s[i] == '\r' && s[i + 1] == '\n'
}

/// The first character of each grapheme of `s`.
pub open spec fn grapheme_heads(s: Seq<char>) -> Seq<char> {
    graphemes_of(s).map_values(|g: Seq<char>| head(g))
}

/// The character that stands for a grapheme: its first one, except that
/// `\r\n` stands as `\n` (a space for an empty grapheme, which segmentation
/// never yields).
pub open spec fn head(g: Seq<char>) -> char {
    if g == seq!['\r', '\n'] {
        '\n'
    } else if g.len() > 0 {
        g[0]
    } else {
        ' '
    }
}

/// The characters of a string as the matcher sees them.
pub open spec fn text_chars(s: Seq<char>) -> Seq<char> {
    if ascii_graphemes(s) {
        s
    } else {
        grapheme_heads(s)
    }
}

/// Bytes read as characters.
pub open spec fn bytes_chars(b: Seq<u8>) -> Seq<char> {
    b.map_values(|x: u8| x as char)
}

/// Whether every byte is ASCII.
pub open spec fn ascii_bytes(b: Seq<u8>) -> bool {
    forall|i: int| 0 <= i < b.len() ==> #[trigger] b[i] < 128
}

/// Whether `s` can be held as the `Ascii` variant.
pub fn has_ascii_graphemes(s: &str) -> (r: bool)
    ensures
        r == ascii_graphemes(s@),
{
    if !s.is_ascii() {
        return false;
    }
    let bytes = s.as_bytes();
    let crlf: Vec<u8> = vec![0x0Du8, 0x0Au8];
    let found = memmem_find(bytes, crlf.as_slice());
    proof {
        assert(bytes@ == s@.map_values(|c: char| c as u8));
        if found is Some {
            let i = found->0 as int;
            assert(bytes@.subrange(i, i + 2) == crlf@);
            assert(bytes@[i] == 0x0Du8 && bytes@[i + 1] == 0x0Au8);
            assert(s@[i] == '\r' && s@[i + 1] == '\n');
        } else {
            assert forall|i: int| 0 <= i < s@.len() - 1 && #[trigger] s@[i] == '\r' implies s@[i + 1]
                != '\n' by {
                if s@[i + 1] == '\n' {
                    assert(bytes@.subrange(i, i + 2) =~= crlf@);
                    assert(occurs_at(bytes@, crlf@, i));
                }
            }
        }
    }
    found.is_none()
}

/// The character that stands for the grapheme `g`.
fn grapheme_head(g: &str) -> (r: char)
    ensures
        r == head(g@),
{
    let mut it = g.chars();
    let first = it.next();
    let second = it.next();
    let third = it.next();
    match (first, second, third) {
        (Some('\r'), Some('\n'), None) => {
            assert(g@ =~= seq!['\r', '\n']);
            '\n'
        },
        (Some(c), _, _) => {
            proof {
                if g@ == seq!['\r', '\n'] {
                    assert(second == Some('\n') && third is None);
                }
            }
            c
        },
        (None, _, _) => ' ',
    }
}

/// The characters of `s`, one per codepoint.
pub fn str_chars(s: &str) -> (r: Vec<char>)
    ensures
        r@ == s@,
{
    let mut out: Vec<char> = Vec::new();
    let mut it = s.chars();
    let ghost total = s@;
    loop
        invariant
            it.obeys_prophetic_iter_laws(),
            it.decrease() is Some,
            total == s@,
            out@ + it.remaining() == total,
        decreases it.decrease()->0,
    {
        match it.next() {
            Some(c) => {
                out.push(c);
                assert(out@ + it.remaining() =~= total);
            },
            None => {
                assert(it.remaining().len() == 0);
                assert(out@ =~= total);
                assert(total == s@);
                return out;
            },
        }
    }
}

/// The first character of each grapheme of `s`.
pub fn graphemes(s: &str) -> (r: Vec<char>)
    ensures
        r@ == grapheme_heads(s@),
{
    let parts = split_graphemes(s);
    let ghost gs = parts@.map_values(|g: &str| g@);
    let mut out: Vec<char> = Vec::new();
    let mut i: usize = 0;
    while i < parts.len()
        invariant
            i <= parts@.len(),
            gs == graphemes_of(s@),
            gs == parts@.map_values(|g: &str| g@),
            out@ == grapheme_heads(s@).subrange(0, i as int),
        decreases parts@.len() - i,
    {
        let g = parts[i];
        let c = grapheme_head(g);
        assert(gs[i as int] == g@);
        assert(graphemes_of(s@)[i as int] == g@);
        assert(graphemes_of(s@).len() == parts@.len());
        assert(grapheme_heads(s@)[i as int] == head(graphemes_of(s@)[i as int]));
        out.push(c);
        i += 1;
        assert(out@ =~= grapheme_heads(s@).subrange(0, i as int));
    }
    assert(out@ =~= grapheme_heads(s@));
    out
}

/// The characters of `s` as the matcher sees them: one per grapheme.
pub fn text_chars_of(s: &str) -> (r: Vec<char>)
    ensures
        r@ == text_chars(s@),
{
    if has_ascii_graphemes(s) {
        str_chars(s)
    } else {
        graphemes(s)
    }
}

/// Whether every character of `s` is ASCII.
pub fn all_ascii_chars(s: Utf32Str) -> (r: bool)
    ensures
        r == vstd::utf8::is_ascii_chars(s@),
{
    let n = s.len();
    let mut i: usize = 0;
    while i < n
        invariant
            n == s@.len(),
            i <= n,
            forall|k: int| 0 <= k < i ==> '\0' <= #[trigger] s@[k] <= '\u{7f}',
        decreases n - i,
    {
        if s.char_at(i) > '\u{7f}' {
            return false;
        }
        i += 1;
    }
    true
}

/// A borrowed string as the matcher sees it: ASCII bytes, or one codepoint
/// per grapheme.
#[derive(Clone, Copy, Debug)]
pub enum Utf32Str<'a> {
    /// ASCII bytes (each below 128).
    Ascii(&'a [u8]),
    /// One codepoint per grapheme.
    Unicode(&'a [char]),
}

impl<'a> View for Utf32Str<'a> {
    type V = Seq<char>;

    open spec fn view(&self) -> Seq<char> {
        match self {
            Utf32Str::Ascii(b) => bytes_chars(b@),
            Utf32Str::Unicode(c) => c@,
        }
    }
}

impl<'a> Utf32Str<'a> {
    /// The `Ascii` variant holds ASCII bytes only.
    pub open spec fn wf(&self) -> bool {
        match self {
            Utf32Str::Ascii(b) => ascii_bytes(b@),
            Utf32Str::Unicode(_) => true,
        }
    }

    pub open spec fn spec_is_ascii(&self) -> bool {
        self is Ascii
    }

    /// Builds the string for `s`, using `buf` for the codepoints when `s`
    /// has a grapheme that is not a single ASCII character.
    pub fn new(s: &'a str, buf: &'a mut Vec<char>) -> (r: Utf32Str<'a>)
        ensures
            r@ == text_chars(s@),
            r.wf(),
            r.spec_is_ascii() == ascii_graphemes(s@),
    {
        if has_ascii_graphemes(s) {
            let bytes = s.as_bytes();
            assert(vstd::string::is_ascii(s));
            assert(bytes@.len() == s@.len());
            assert(bytes_chars(bytes@) =~= s@) by {
                assert forall|i: int| 0 <= i < s@.len() implies bytes_chars(bytes@)[i]
                    == s@[i] by {
                    assert('\0' <= s@[i] <= '\u{7f}');
                    assert(bytes@[i] == s@[i] as u8);
                }
            }
            Utf32Str::Ascii(bytes)
        } else {
            let heads = graphemes(s);
            *buf = heads;
            Utf32Str::Unicode(buf.as_slice())
        }
    }

    /// Number of characters.
    pub fn len(self) -> (r: usize)
        ensures
            r == self@.len(),
    {
        match self {
            Utf32Str::Unicode(c) => c.len(),
            Utf32Str::Ascii(b) => b.len(),
        }
    }

    /// Whether there are no characters.
    pub fn is_empty(self) -> (r: bool)
        ensures
            r == (self@.len() == 0),
    {
        self.len() == 0
    }

    /// The characters in `start..end`.
    pub fn slice(self, start: usize, end: usize) -> (r: Utf32Str<'a>)
        requires
            start <= end <= self@.len(),
        ensures
            r@ == self@.subrange(start as int, end as int),
            r.spec_is_ascii() == self.spec_is_ascii(),
            self.wf() ==> r.wf(),
    {
        match self {
            Utf32Str::Ascii(b) => {
                let s = slice_subrange(b, start, end);
                assert(bytes_chars(s@) =~= bytes_chars(b@).subrange(start as int, end as int));
                Utf32Str::Ascii(s)
            },
            Utf32Str::Unicode(c) => Utf32Str::Unicode(slice_subrange(c, start, end)),
        }
    }

    /// The characters in `start..end`, with `u32` bounds as the matcher
    /// reports indices.
    pub fn slice_u32(self, start: u32, end: u32) -> (r: Utf32Str<'a>)
        requires
            start <= end <= self@.len(),
        ensures
            r@ == self@.subrange(start as int, end as int),
            r.spec_is_ascii() == self.spec_is_ascii(),
            self.wf() ==> r.wf(),
    {
        self.slice(start as usize, end as usize)
    }

    /// Whether this is the `Ascii` variant.
    pub fn is_ascii(self) -> (r: bool)
        ensures
            r == self.spec_is_ascii(),
    {
        match self {
            Utf32Str::Ascii(_) => true,
            Utf32Str::Unicode(_) => false,
        }
    }

    /// The character at `n`.
    pub fn get(self, n: u32) -> (r: char)
        requires
            n < self@.len(),
        ensures
            r == self@[n as int],
    {
        self.char_at(n as usize)
    }

    /// The character at `i`.
    pub fn char_at(self, i: usize) -> (r: char)
        requires
            i < self@.len(),
        ensures
            r == self@[i as int],
    {
        match self {
            Utf32Str::Ascii(b) => b[i] as char,
            Utf32Str::Unicode(c) => c[i],
        }
    }

    /// The last character.
    pub fn last(self) -> (r: char)
        requires
            self@.len() > 0,
        ensures
            r == self@.last(),
    {
        match self {
            Utf32Str::Ascii(b) => b[b.len() - 1] as char,
            Utf32Str::Unicode(c) => c[c.len() - 1],
        }
    }

    /// The first character.
    pub fn first(self) -> (r: char)
        requires
            self@.len() > 0,
        ensures
            r == self@[0],
    {
        match self {
            Utf32Str::Ascii(b) => b[0] as char,
            Utf32Str::Unicode(c) => c[0],
        }
    }

    /// Number of whitespace characters before the first other one; 0 when
    /// all characters are whitespace.
    pub fn leading_white_space(self) -> (r: usize)
        ensures
            (exists|k: int| 0 <= k < self@.len() && !#[trigger] is_space(self, k)) ==> (r
                < self@.len() && !is_space(self, r as int) && forall|k: int|
                0 <= k < r ==> is_space(self, k)),
            (forall|k: int| 0 <= k < self@.len() ==> #[trigger] is_space(self, k)) ==> r == 0,
    {
        let n = self.len();
        let mut i: usize = 0;
        while i < n
            invariant
                n == self@.len(),
                i <= n,
                forall|k: int| 0 <= k < i ==> is_space(self, k),
            decreases n - i,
        {
            if !self.space_at(i) {
                return i;
            }
            i += 1;
        }
        0
    }

    /// Number of whitespace characters after the last other one; 0 when
    /// all characters are whitespace.
    pub fn trailing_white_space(self) -> (r: usize)
        ensures
            (exists|k: int| 0 <= k < self@.len() && !#[trigger] space_from_end(self, k)) ==> (r
                < self@.len() && !space_from_end(self, r as int) && forall|k: int|
                0 <= k < r ==> space_from_end(self, k)),
            (forall|k: int| 0 <= k < self@.len() ==> #[trigger] space_from_end(self, k)) ==> r
                == 0,
    {
        let n = self.len();
        let mut i: usize = 0;
        while i < n
            invariant
                n == self@.len(),
                i <= n,
                forall|k: int| 0 <= k < i ==> space_from_end(self, k),
            decreases n - i,
        {
            if !self.space_at(n - 1 - i) {
                return i;
            }
            i += 1;
        }
        0
    }

    fn space_at(self, i: usize) -> (r: bool)
        requires
            i < self@.len(),
        ensures
            r == is_space(self, i as int),
    {
        match self {
            Utf32Str::Ascii(b) => {
                let c = b[i];
                c == 0x20 || c == 0x09 || c == 0x0A || c == 0x0C || c == 0x0D
            },
            Utf32Str::Unicode(c) => std_is_whitespace(c[i]),
        }
    }

    /// The characters front to back.
    pub fn chars(self) -> (r: Chars<'a>)
        ensures
            r.remaining() == self@,
    {
        Chars { s: self, front: 0, back: self.len() }
    }
}

/// Whether the character at `i` counts as whitespace: ASCII whitespace in
/// the `Ascii` variant, unicode whitespace otherwise.
pub open spec fn is_space(s: Utf32Str, i: int) -> bool {
    match s {
        Utf32Str::Ascii(b) => crate::chars::is_ascii_space(b@[i]),
        Utf32Str::Unicode(c) => whitespace_prop(c@[i]),
    }
}

/// Whether the `k`-th character counted from the end is whitespace.
pub open spec fn space_from_end(s: Utf32Str, k: int) -> bool {
    is_space(s, s@.len() - 1 - k)
}

/// The characters of a `Utf32Str`, taken from either end.
pub struct Chars<'a> {
    s: Utf32Str<'a>,
    front: usize,
    back: usize,
}

impl<'a> Chars<'a> {
    pub closed spec fn remaining(&self) -> Seq<char> {
        self.s@.subrange(self.front as int, self.back as int)
    }

    pub closed spec fn wf(&self) -> bool {
        self.front <= self.back <= self.s@.len()
    }

    /// Takes the first remaining character.
    pub fn next(&mut self) -> (r: Option<char>)
        requires
            old(self).wf(),
        ensures
            final(self).wf(),
            old(self).remaining().len() == 0 ==> r is None && final(self).remaining()
                == old(self).remaining(),
            old(self).remaining().len() > 0 ==> r == Some(old(self).remaining()[0])
                && final(self).remaining() == old(self).remaining().drop_first(),
    {
        if self.front == self.back {
            return None;
        }
        let c = self.s.char_at(self.front);
        self.front = self.front + 1;
        assert(self.remaining() =~= old(self).remaining().drop_first());
        Some(c)
    }

    /// Takes the last remaining character.
    pub fn next_back(&mut self) -> (r: Option<char>)
        requires
            old(self).wf(),
        ensures
            final(self).wf(),
            old(self).remaining().len() == 0 ==> r is None && final(self).remaining()
                == old(self).remaining(),
            old(self).remaining().len() > 0 ==> r == Some(old(self).remaining().last())
                && final(self).remaining() == old(self).remaining().drop_last(),
    {
        if self.front == self.back {
            return None;
        }
        self.back = self.back - 1;
        let c = self.s.char_at(self.back);
        assert(self.remaining() =~= old(self).remaining().drop_last());
        Some(c)
    }
}

} // verus!
