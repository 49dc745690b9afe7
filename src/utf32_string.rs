//! The owned counterpart of `Utf32Str`.
use vstd::prelude::*;

use vstd::string::StringSliceAdditionalSpecFns;

use crate::utf32_str::{
    ascii_bytes, ascii_graphemes, bytes_chars, graphemes, has_ascii_graphemes, str_chars,
    text_chars, Chars, Utf32Str,
};

verus! {

broadcast use vstd::string::is_ascii_spec_bytes;

/// Relies on collecting characters into a `String` (`FromIterator<char>`).
#[verifier::external_body]
fn collect_string(v: &Vec<char>) -> (r: String)
    ensures
        r@ == v@,
{
    v.iter().collect()
}

/// The bytes of an ASCII string, as characters.
proof fn lemma_ascii_bytes(s: &str, b: Seq<u8>)
    requires
        vstd::utf8::is_ascii_chars(s@),
        b == s.spec_bytes(),
    ensures
        bytes_chars(b) == s@,
        ascii_bytes(b),
{
    assert(vstd::string::is_ascii(s));
    assert(bytes_chars(b) =~= s@) by {
        assert forall|i: int| 0 <= i < s@.len() implies bytes_chars(b)[i] == s@[i] by {
            assert('\0' <= s@[i] <= '\u{7f}');
        }
    }
}

/// A sequence stays ASCII after a push exactly when the pushed character is ASCII.
proof fn lemma_ascii_push(a: Seq<char>, c: char)
    ensures
        vstd::utf8::is_ascii_chars(a.push(c)) == (vstd::utf8::is_ascii_chars(a) && c
            <= '\u{7f}'),
{
    let b = a.push(c);
    if vstd::utf8::is_ascii_chars(b) {
        assert(b[a.len() as int] == c);
        assert forall|k: int| 0 <= k < a.len() implies '\0' <= #[trigger] a[k] <= '\u{7f}' by {
            assert(a[k] == b[k]);
        }
    }
    if vstd::utf8::is_ascii_chars(a) && c <= '\u{7f}' {
        assert forall|k: int| 0 <= k < b.len() implies '\0' <= #[trigger] b[k] <= '\u{7f}' by {
            if k < a.len() {
                assert(b[k] == a[k]);
            }
        }
    }
}

/// An owned string as the matcher sees it: ASCII bytes, or codepoints.
#[derive(Clone, Debug)]
pub enum Utf32String {
    /// ASCII bytes (each below 128).
    Ascii(Vec<u8>),
    /// Codepoints.
    Unicode(Vec<char>),
}

impl View for Utf32String {
    type V = Seq<char>;

    open spec fn view(&self) -> Seq<char> {
        match self {
            Utf32String::Ascii(b) => bytes_chars(b@),
            Utf32String::Unicode(c) => c@,
        }
    }
}

impl Default for Utf32String {
    fn default() -> (r: Self)
        ensures
            r@ == Seq::<char>::empty(),
            r.wf(),
            r.spec_is_ascii(),
    {
        let v: Vec<u8> = Vec::new();
        assert(bytes_chars(v@) =~= Seq::<char>::empty());
        Utf32String::Ascii(v)
    }
}

impl From<&str> for Utf32String {
    fn from(value: &str) -> Self {
        Utf32String::from_text(value)
    }
}

impl vstd::std_specs::convert::FromSpecImpl<&str> for Utf32String {
    open spec fn obeys_from_spec() -> bool {
        false
    }

    open spec fn from_spec(v: &str) -> Self {
        arbitrary()
    }
}

impl Utf32String {
    /// The `Ascii` variant holds ASCII bytes only.
    pub open spec fn wf(&self) -> bool {
        match self {
            Utf32String::Ascii(b) => ascii_bytes(b@),
            Utf32String::Unicode(_) => true,
        }
    }

    pub open spec fn spec_is_ascii(&self) -> bool {
        self is Ascii
    }

    /// The string for `s`: its bytes when every grapheme is one ASCII
    /// character, the first codepoint of each grapheme otherwise.
    pub fn from_text(s: &str) -> (r: Utf32String)
        ensures
            r@ == text_chars(s@),
            r.wf(),
            r.spec_is_ascii() == ascii_graphemes(s@),
    {
        if has_ascii_graphemes(s) {
            let b = s.as_bytes();
            proof {
                lemma_ascii_bytes(s, b@);
            }
            let v = vstd::slice::slice_to_vec(b);
            Utf32String::Ascii(v)
        } else {
            Utf32String::Unicode(graphemes(s))
        }
    }

    /// Number of characters.
    pub fn len(&self) -> (r: usize)
        ensures
            r == self@.len(),
    {
        match self {
            Utf32String::Unicode(c) => c.len(),
            Utf32String::Ascii(b) => b.len(),
        }
    }

    /// Whether there are no characters.
    pub fn is_empty(&self) -> (r: bool)
        ensures
            r == (self@.len() == 0),
    {
        self.len() == 0
    }

    /// The whole string, borrowed.
    pub fn as_utf32_str(&self) -> (r: Utf32Str<'_>)
        ensures
            r@ == self@,
            r.spec_is_ascii() == self.spec_is_ascii(),
            self.wf() ==> r.wf(),
    {
        match self {
            Utf32String::Ascii(b) => Utf32Str::Ascii(b.as_slice()),
            Utf32String::Unicode(c) => Utf32Str::Unicode(c.as_slice()),
        }
    }

    /// The characters in `start..end`, borrowed.
    pub fn slice(&self, start: usize, end: usize) -> (r: Utf32Str<'_>)
        requires
            start <= end <= self@.len(),
        ensures
            r@ == self@.subrange(start as int, end as int),
            r.spec_is_ascii() == self.spec_is_ascii(),
            self.wf() ==> r.wf(),
    {
        self.as_utf32_str().slice(start, end)
    }

    /// The characters in `start..end`, with `u32` bounds.
    pub fn slice_u32(&self, start: u32, end: u32) -> (r: Utf32Str<'_>)
        requires
            start <= end <= self@.len(),
        ensures
            r@ == self@.subrange(start as int, end as int),
            r.spec_is_ascii() == self.spec_is_ascii(),
            self.wf() ==> r.wf(),
    {
        self.as_utf32_str().slice(start as usize, end as usize)
    }

    /// Whether this is the `Ascii` variant.
    pub fn is_ascii(&self) -> (r: bool)
        ensures
            r == self.spec_is_ascii(),
    {
        match self {
            Utf32String::Ascii(_) => true,
            Utf32String::Unicode(_) => false,
        }
    }

    /// The character at `n`.
    pub fn get(&self, n: u32) -> (r: char)
        requires
            n < self@.len(),
        ensures
            r == self@[n as int],
    {
        self.as_utf32_str().get(n)
    }

    /// The last character.
    pub fn last(&self) -> (r: char)
        requires
            self@.len() > 0,
        ensures
            r == self@.last(),
    {
        self.as_utf32_str().last()
    }

    /// The characters front to back.
    pub fn chars(&self) -> (r: Chars<'_>)
        ensures
            r.remaining() == self@,
    {
        self.as_utf32_str().chars()
    }

    /// Appends the codepoints of `text`; the string stays ASCII when both
    /// parts are.
    pub fn push_str(&mut self, text: &str)
        requires
            old(self).wf(),
        ensures
            final(self)@ == old(self)@ + text@,
            final(self).wf(),
            final(self).spec_is_ascii() == (old(self).spec_is_ascii()
                && vstd::utf8::is_ascii_chars(text@)),
    {
        let chars = str_chars(text);
        let mut i: usize = 0;
        let ghost start = self@;
        while i < chars.len()
            invariant
                i <= chars@.len(),
                chars@ == text@,
                self.wf(),
                self@ == start + text@.subrange(0, i as int),
                self.spec_is_ascii() == (old(self).spec_is_ascii()
                    && vstd::utf8::is_ascii_chars(text@.subrange(0, i as int))),
            decreases chars@.len() - i,
        {
            self.push(chars[i]);
            i += 1;
            proof {
                let a = text@.subrange(0, i - 1);
                assert(text@.subrange(0, i as int) =~= a.push(chars@[i - 1]));
                lemma_ascii_push(a, chars@[i - 1]);
            }
        }
        assert(text@.subrange(0, i as int) =~= text@);
    }

    /// Appends one codepoint; the string stays ASCII when both parts are.
    pub fn push(&mut self, c: char)
        requires
            old(self).wf(),
        ensures
            final(self)@ == old(self)@.push(c),
            final(self).wf(),
            final(self).spec_is_ascii() == (old(self).spec_is_ascii() && c <= '\u{7f}'),
    {
        let ghost before = self@;
        let cp = c as u32;
        match self {
            Utf32String::Ascii(b) => {
                if cp < 128 {
                    b.push(cp as u8);
                    assert(bytes_chars(b@) =~= before.push(c));
                    return;
                }
            },
            Utf32String::Unicode(v) => {
                v.push(c);
                return;
            },
        }
        let mut v: Vec<char> = Vec::new();
        let mut i: usize = 0;
        let n = self.len();
        while i < n
            invariant
                n == self@.len(),
                i <= n,
                self@ == before,
                v@ == before.subrange(0, i as int),
            decreases n - i,
        {
            let x = self.as_utf32_str().char_at(i);
            v.push(x);
            i += 1;
            assert(v@ =~= before.subrange(0, i as int));
        }
        assert(v@ =~= before);
        v.push(c);
        *self = Utf32String::Unicode(v);
    }

    /// The characters as a `String`.
    pub fn to_string(&self) -> (r: String)
        ensures
            r@ == self@,
    {
        let mut v: Vec<char> = Vec::new();
        let n = self.len();
        let mut i: usize = 0;
        while i < n
            invariant
                n == self@.len(),
                i <= n,
                v@ == self@.subrange(0, i as int),
            decreases n - i,
        {
            v.push(self.as_utf32_str().char_at(i));
            i += 1;
            assert(v@ =~= self@.subrange(0, i as int));
        }
        assert(v@ =~= self@);
        collect_string(&v)
    }
}

} // verus!
