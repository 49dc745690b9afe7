//! Character classification, case folding and latin normalization.
use vstd::prelude::*;

verus! {

/// The class of a character, used to compute boundary bonuses.
///
/// Every class after `NonWord` counts as a word character.
#[derive(Debug, Clone, Copy, PartialEq, Eq, Structural)]
pub enum CharClass {
    Whitespace,
    NonWord,
    Delimiter,
    Lower,
    Upper,
    Letter,
    Number,
}

impl CharClass {
    /// Whether the class counts as part of a word.
    pub open spec fn spec_is_word(self) -> bool {
        !(self is Whitespace) && !(self is NonWord)
    }

    #[verifier::when_used_as_spec(spec_is_word)]
    pub fn is_word(self) -> (r: bool)
        ensures
            r == self.spec_is_word(),
    {
        match self {
            CharClass::Whitespace | CharClass::NonWord => false,
            _ => true,
        }
    }
}

/// Whether an ASCII byte is whitespace in the sense of `u8::is_ascii_whitespace`.
pub open spec fn is_ascii_space(b: u8) -> bool {
    b == 0x20u8 || b == 0x09u8 || b == 0x0Au8 || b == 0x0Cu8 || b == 0x0Du8
}

/// Class of an ASCII byte; `delims` holds the delimiter bytes.
pub open spec fn ascii_class(b: u8, delims: Seq<u8>) -> CharClass {
    if 0x61u8 <= b && b <= 0x7Au8 {
        CharClass::Lower
    } else if 0x41u8 <= b && b <= 0x5Au8 {
        CharClass::Upper
    } else if 0x30u8 <= b && b <= 0x39u8 {
        CharClass::Number
    } else if is_ascii_space(b) {
        CharClass::Whitespace
    } else if delims.contains(b) {
        CharClass::Delimiter
    } else {
        CharClass::NonWord
    }
}

/// What `char::is_lowercase` returns.
pub uninterp spec fn lowercase_prop(c: char) -> bool;

/// What `char::is_uppercase` returns.
pub uninterp spec fn uppercase_prop(c: char) -> bool;

/// What `char::is_numeric` returns.
pub uninterp spec fn numeric_prop(c: char) -> bool;

/// What `char::is_alphabetic` returns.
pub uninterp spec fn alphabetic_prop(c: char) -> bool;

/// What `char::is_whitespace` returns.
pub uninterp spec fn whitespace_prop(c: char) -> bool;

/// The first character that `char::to_lowercase` yields.
pub uninterp spec fn lowercase_of(c: char) -> char;

/// Class of a character outside ASCII, from its unicode properties.
pub open spec fn unicode_class(c: char) -> CharClass {
    if lowercase_prop(c) {
        CharClass::Lower
    } else if uppercase_prop(c) {
        CharClass::Upper
    } else if numeric_prop(c) {
        CharClass::Number
    } else if alphabetic_prop(c) {
        CharClass::Letter
    } else if whitespace_prop(c) {
        CharClass::Whitespace
    } else {
        CharClass::NonWord
    }
}

/// Class of any character.
pub open spec fn char_class(c: char, delims: Seq<u8>) -> CharClass {
    if (c as u32) < 128 {
        ascii_class(c as u32 as u8, delims)
    } else {
        unicode_class(c)
    }
}

/// Lowercase form of a character: ASCII letters are shifted, other
/// characters take their unicode lowercase mapping.
pub open spec fn lower(c: char) -> char {
    if (c as u32) < 128 {
        if 0x41 <= (c as u32) && (c as u32) <= 0x5A {
            ((c as u32) + 32) as char
        } else {
            c
        }
    } else {
        lowercase_of(c)
    }
}

/// The ASCII base letter of a latin letter with a diacritic, if it has one.
pub open spec fn latin_base(cp: u32) -> u32 {
    if 0xC0 <= cp && cp <= 0xC5 {
        0x41
    } else if cp == 0xC7 {
        0x43
    } else if 0xC8 <= cp && cp <= 0xCB {
        0x45
    } else if 0xCC <= cp && cp <= 0xCF {
        0x49
    } else if cp == 0xD0 {
        0x44
    } else if cp == 0xD1 {
        0x4E
    } else if (0xD2 <= cp && cp <= 0xD6) || cp == 0xD8 {
        0x4F
    } else if 0xD9 <= cp && cp <= 0xDC {
        0x55
    } else if cp == 0xDD {
        0x59
    } else if 0xE0 <= cp && cp <= 0xE5 {
        0x61
    } else if cp == 0xE7 {
        0x63
    } else if 0xE8 <= cp && cp <= 0xEB {
        0x65
    } else if 0xEC <= cp && cp <= 0xEF {
        0x69
    } else if cp == 0xF0 {
        0x64
    } else if cp == 0xF1 {
        0x6E
    } else if (0xF2 <= cp && cp <= 0xF6) || cp == 0xF8 {
        0x6F
    } else if 0xF9 <= cp && cp <= 0xFC {
        0x75
    } else if cp == 0xFD || cp == 0xFF {
        0x79
    } else {
        cp
    }
}

/// The uppercase ASCII base letter of a letter of Latin Extended-A
/// (U+0100 to U+017F), or 0 for one without a single base letter.
pub open spec fn extended_base(cp: u32) -> u32 {
    if 0x100 <= cp && cp <= 0x105 {
        0x41
    } else if 0x106 <= cp && cp <= 0x10D {
        0x43
    } else if 0x10E <= cp && cp <= 0x111 {
        0x44
    } else if 0x112 <= cp && cp <= 0x11B {
        0x45
    } else if 0x11C <= cp && cp <= 0x123 {
        0x47
    } else if 0x124 <= cp && cp <= 0x127 {
        0x48
    } else if 0x128 <= cp && cp <= 0x131 {
        0x49
    } else if 0x134 <= cp && cp <= 0x135 {
        0x4A
    } else if 0x136 <= cp && cp <= 0x138 {
        0x4B
    } else if 0x139 <= cp && cp <= 0x142 {
        0x4C
    } else if 0x143 <= cp && cp <= 0x14B {
        0x4E
    } else if 0x14C <= cp && cp <= 0x151 {
        0x4F
    } else if 0x154 <= cp && cp <= 0x159 {
        0x52
    } else if 0x15A <= cp && cp <= 0x161 {
        0x53
    } else if 0x162 <= cp && cp <= 0x167 {
        0x54
    } else if 0x168 <= cp && cp <= 0x173 {
        0x55
    } else if 0x174 <= cp && cp <= 0x175 {
        0x57
    } else if 0x176 <= cp && cp <= 0x178 {
        0x59
    } else if 0x179 <= cp && cp <= 0x17E {
        0x5A
    } else if cp == 0x17F {
        0x53
    } else {
        0
    }
}

/// Whether a letter of Latin Extended-A is lowercase: the block pairs an
/// uppercase letter with its lowercase one, odd code points lowercase except
/// in two runs where the pairing is shifted by one.
pub open spec fn extended_lower(cp: u32) -> bool {
    if cp == 0x138 || cp == 0x17F {
        true
    } else if cp == 0x178 {
        false
    } else if (0x139 <= cp && cp <= 0x148) || (0x179 <= cp && cp <= 0x17E) {
        cp % 2 == 0
    } else {
        cp % 2 == 1
    }
}

/// Folds a latin letter with a diacritic (or the small capital N) to its
/// base letter, keeping case.
pub open spec fn fold_latin(c: char) -> char {
    if 0xC0 <= (c as u32) && (c as u32) <= 0xFF && latin_base(c as u32) != (c as u32) {
        latin_base(c as u32) as char
    } else if (c as u32) == 0x274 {
        'n'
    } else if 0x100 <= (c as u32) && (c as u32) <= 0x17F && extended_base(c as u32) != 0 {
        (extended_base(c as u32) + if extended_lower(c as u32) {
            32u32
        } else {
            0u32
        }) as char
    } else {
        c
    }
}

/// The form in which a character is compared: diacritics folded when
/// `normalize` is set, then lowercased when `ignore_case` is set.
pub open spec fn norm_char(c: char, normalize: bool, ignore_case: bool) -> char {
    let a = if normalize { fold_latin(c) } else { c };
    if ignore_case { lower(a) } else { a }
}

/// Relies on `char::is_lowercase`.
#[verifier::external_body]
fn std_is_lowercase(c: char) -> (r: bool)
    ensures
        r == lowercase_prop(c),
{
    c.is_lowercase()
}

/// Relies on `char::is_uppercase`.
#[verifier::external_body]
fn std_is_uppercase(c: char) -> (r: bool)
    ensures
        r == uppercase_prop(c),
{
    c.is_uppercase()
}

/// Relies on `char::is_numeric`.
#[verifier::external_body]
fn std_is_numeric(c: char) -> (r: bool)
    ensures
        r == numeric_prop(c),
{
    c.is_numeric()
}

/// Relies on `char::is_alphabetic`.
#[verifier::external_body]
fn std_is_alphabetic(c: char) -> (r: bool)
    ensures
        r == alphabetic_prop(c),
{
    c.is_alphabetic()
}

/// Relies on `char::is_whitespace`.
#[verifier::external_body]
pub(crate) fn std_is_whitespace(c: char) -> (r: bool)
    ensures
        r == whitespace_prop(c),
{
    c.is_whitespace()
}

/// Relies on `char::to_lowercase`, which always yields at least one character:
/// the first one is kept.
#[verifier::external_body]
fn std_to_lowercase(c: char) -> (r: char)
    ensures
        r == lowercase_of(c),
{
    c.to_lowercase().next().unwrap_or(c)
}

/// Whether `b` occurs in `delims`.
pub fn contains_byte(delims: &Vec<u8>, b: u8) -> (r: bool)
    ensures
        r == delims@.contains(b),
{
    let mut i: usize = 0;
    while i < delims.len()
        invariant
            i <= delims@.len(),
            forall|k: int| 0 <= k < i ==> delims@[k] != b,
        decreases delims@.len() - i,
    {
        if delims[i] == b {
            return true;
        }
        i += 1;
    }
    false
}

/// Class of an ASCII byte.
pub fn ascii_char_class(b: u8, delims: &Vec<u8>) -> (r: CharClass)
    ensures
        r == ascii_class(b, delims@),
{
    if b >= 0x61 && b <= 0x7A {
        CharClass::Lower
    } else if b >= 0x41 && b <= 0x5A {
        CharClass::Upper
    } else if b >= 0x30 && b <= 0x39 {
        CharClass::Number
    } else if b == 0x20 || b == 0x09 || b == 0x0A || b == 0x0C || b == 0x0D {
        CharClass::Whitespace
    } else if contains_byte(delims, b) {
        CharClass::Delimiter
    } else {
        CharClass::NonWord
    }
}

/// Class of any character: ASCII by ranges and delimiters, other
/// characters by their unicode properties.
pub fn classify(c: char, delims: &Vec<u8>) -> (r: CharClass)
    ensures
        r == char_class(c, delims@),
{
    let cp = c as u32;
    if cp < 128 {
        return ascii_char_class(cp as u8, delims);
    }
    if std_is_lowercase(c) {
        CharClass::Lower
    } else if std_is_uppercase(c) {
        CharClass::Upper
    } else if std_is_numeric(c) {
        CharClass::Number
    } else if std_is_alphabetic(c) {
        CharClass::Letter
    } else if std_is_whitespace(c) {
        CharClass::Whitespace
    } else {
        CharClass::NonWord
    }
}

/// Lowercases a character.
pub fn to_lower_case(c: char) -> (r: char)
    ensures
        r == lower(c),
{
    let cp = c as u32;
    if cp < 128 {
        if cp >= 0x41 && cp <= 0x5A {
            ((cp + 32) as u8) as char
        } else {
            c
        }
    } else {
        std_to_lowercase(c)
    }
}

/// Whether a character is an uppercase letter.
pub fn is_upper_case(c: char) -> (r: bool)
    ensures
        r == (char_class(c, Seq::empty()) is Upper),
{
    let cp = c as u32;
    if cp < 128 {
        cp >= 0x41 && cp <= 0x5A
    } else {
        !std_is_lowercase(c) && std_is_uppercase(c)
    }
}

/// Folds a latin letter with a diacritic to its base letter.
pub fn normalize_latin(c: char) -> (r: char)
    ensures
        r == fold_latin(c),
{
    let cp = c as u32;
    if cp >= 0x100 && cp <= 0x17F {
        return normalize_extended(c);
    }
    if cp == 0x274 {
        // small capital N
        return 'n';
    }
    if cp < 0xC0 || cp > 0xFF {
        return c;
    }
    let base: u32 = if cp <= 0xC5 {
        0x41
    } else if cp == 0xC7 {
        0x43
    } else if 0xC8 <= cp && cp <= 0xCB {
        0x45
    } else if 0xCC <= cp && cp <= 0xCF {
        0x49
    } else if cp == 0xD0 {
        0x44
    } else if cp == 0xD1 {
        0x4E
    } else if (0xD2 <= cp && cp <= 0xD6) || cp == 0xD8 {
        0x4F
    } else if 0xD9 <= cp && cp <= 0xDC {
        0x55
    } else if cp == 0xDD {
        0x59
    } else if 0xE0 <= cp && cp <= 0xE5 {
        0x61
    } else if cp == 0xE7 {
        0x63
    } else if 0xE8 <= cp && cp <= 0xEB {
        0x65
    } else if 0xEC <= cp && cp <= 0xEF {
        0x69
    } else if cp == 0xF0 {
        0x64
    } else if cp == 0xF1 {
        0x6E
    } else if (0xF2 <= cp && cp <= 0xF6) || cp == 0xF8 {
        0x6F
    } else if 0xF9 <= cp && cp <= 0xFC {
        0x75
    } else if cp == 0xFD || cp == 0xFF {
        0x79
    } else {
        cp
    };
    if base == cp {
        c
    } else {
        (base as u8) as char
    }
}

/// Folds a letter of Latin Extended-A to its base letter.
fn normalize_extended(c: char) -> (r: char)
    requires
        0x100 <= (c as u32) <= 0x17F,
    ensures
        r == fold_latin(c),
{
    let cp = c as u32;
    let base: u32 = if cp <= 0x105 {
        0x41
    } else if cp <= 0x10D {
        0x43
    } else if cp <= 0x111 {
        0x44
    } else if cp <= 0x11B {
        0x45
    } else if cp <= 0x123 {
        0x47
    } else if cp <= 0x127 {
        0x48
    } else if cp <= 0x131 {
        0x49
    } else if cp <= 0x133 {
        0
    } else if cp <= 0x135 {
        0x4A
    } else if cp <= 0x138 {
        0x4B
    } else if cp <= 0x142 {
        0x4C
    } else if cp <= 0x14B {
        0x4E
    } else if cp <= 0x151 {
        0x4F
    } else if cp <= 0x153 {
        0
    } else if cp <= 0x159 {
        0x52
    } else if cp <= 0x161 {
        0x53
    } else if cp <= 0x167 {
        0x54
    } else if cp <= 0x173 {
        0x55
    } else if cp <= 0x175 {
        0x57
    } else if cp <= 0x178 {
        0x59
    } else if cp <= 0x17E {
        0x5A
    } else {
        0x53
    };
    if base == 0 {
        return c;
    }
    let lower = if cp == 0x138 || cp == 0x17F {
        true
    } else if cp == 0x178 {
        false
    } else if (0x139 <= cp && cp <= 0x148) || (0x179 <= cp && cp <= 0x17E) {
        cp % 2 == 0
    } else {
        cp % 2 == 1
    };
    let folded = if lower {
        base + 32
    } else {
        base
    };
    (folded as u8) as char
}

/// The compared form of a character (see `norm_char`).
pub fn normalize_char(c: char, normalize: bool, ignore_case: bool) -> (r: char)
    ensures
        r == norm_char(c, normalize, ignore_case),
{
    let a = if normalize { normalize_latin(c) } else { c };
    if ignore_case { to_lower_case(a) } else { a }
}

} // verus!
