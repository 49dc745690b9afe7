//! Scoring constants and the matcher configuration.
use vstd::prelude::*;

use crate::chars::CharClass;

verus! {

pub const SCORE_MATCH: u16 = 16;

pub const PENALTY_GAP_START: u16 = 3;

pub const PENALTY_GAP_EXTENSION: u16 = 1;

/// Bonus for a match at the start of a word. It is cancelled by a gap of
/// about eight characters, so that long acronym matches do not always win.
pub const BONUS_BOUNDARY: u16 = SCORE_MATCH / 2;

/// Bonus for matching a non-word character.
pub const BONUS_NON_WORD: u16 = SCORE_MATCH / 2;

/// Bonus for a camelCase or letter-to-digit transition.
pub const BONUS_CAMEL123: u16 = BONUS_BOUNDARY - PENALTY_GAP_EXTENSION;

/// Least bonus of each character in a run of consecutive matches.
pub const BONUS_CONSECUTIVE: u16 = PENALTY_GAP_START + PENALTY_GAP_EXTENSION;

/// The bonus of the first needle character is multiplied by this factor.
pub const BONUS_FIRST_CHAR_MULTIPLIER: u16 = 2;

/// The largest boundary bonus a configuration may carry.
pub const MAX_BOUNDARY_BONUS: u16 = BONUS_BOUNDARY + 2;

/// Configuration of a matcher.
#[derive(Clone, Debug)]
pub struct MatcherConfig {
    /// Bytes (ASCII) that count as delimiters.
    pub delimiter_chars: Vec<u8>,
    /// Bonus for a word boundary after whitespace or at the start of the string.
    pub bonus_boundary_white: u16,
    /// Bonus for a word boundary after a delimiter.
    pub bonus_boundary_delimiter: u16,
    /// The class assumed for the (virtual) character before the haystack.
    pub initial_char_class: CharClass,
    /// Whether latin letters with diacritics are compared by their base letter.
    pub normalize: bool,
    /// Whether case is ignored.
    pub ignore_case: bool,
    /// Whether matches near the start of the haystack get a small bonus.
    pub prefer_prefix: bool,
}

impl MatcherConfig {
    /// The boundary bonuses stay within the range that keeps scores small.
    pub open spec fn wf(&self) -> bool {
        self.bonus_boundary_white <= MAX_BOUNDARY_BONUS && self.bonus_boundary_delimiter
            <= MAX_BOUNDARY_BONUS
    }

    /// Whether the boundary bonuses stay within range (see `wf`).
    pub fn is_wf(&self) -> (r: bool)
        ensures
            r == self.wf(),
    {
        self.bonus_boundary_white <= MAX_BOUNDARY_BONUS && self.bonus_boundary_delimiter
            <= MAX_BOUNDARY_BONUS
    }

    /// Configures matching of file paths: `/` is the only delimiter, the
    /// start of the haystack counts as a delimiter and whitespace gets no
    /// extra boundary bonus.
    pub fn set_match_paths(&mut self)
        ensures
            final(self).delimiter_chars@ == seq![0x2Fu8],
            final(self).bonus_boundary_white == BONUS_BOUNDARY,
            final(self).bonus_boundary_delimiter == old(
                self,
            ).bonus_boundary_delimiter,
            final(self).initial_char_class == CharClass::Delimiter,
            final(self).normalize == old(self).normalize,
            final(self).ignore_case == old(self).ignore_case,
            final(self).prefer_prefix == old(self).prefer_prefix,
    {
        self.delimiter_chars = vec![0x2Fu8];
        self.bonus_boundary_white = BONUS_BOUNDARY;
        self.initial_char_class = CharClass::Delimiter;
    }

    /// Returns this configuration set up for matching file paths (see
    /// `set_match_paths`).
    pub fn match_paths(self) -> (r: Self)
        ensures
            r.delimiter_chars@ == seq![0x2Fu8],
            r.bonus_boundary_white == BONUS_BOUNDARY,
            r.bonus_boundary_delimiter == self.bonus_boundary_delimiter,
            r.initial_char_class == CharClass::Delimiter,
            r.normalize == self.normalize,
            r.ignore_case == self.ignore_case,
            r.prefer_prefix == self.prefer_prefix,
    {
        let mut cfg = self;
        cfg.set_match_paths();
        cfg
    }
}

impl Default for MatcherConfig {
    /// Delimiters `/,:;|`, whitespace before the haystack, case ignored,
    /// normalization on, no prefix preference.
    fn default() -> (r: Self)
        ensures
            r.delimiter_chars@ == seq![0x2Fu8, 0x2Cu8, 0x3Au8, 0x3Bu8, 0x7Cu8],
            r.bonus_boundary_white == BONUS_BOUNDARY + 2,
            r.bonus_boundary_delimiter == BONUS_BOUNDARY + 1,
            r.initial_char_class == CharClass::Whitespace,
            r.normalize,
            r.ignore_case,
            !r.prefer_prefix,
    {
        MatcherConfig {
            delimiter_chars: vec![0x2Fu8, 0x2Cu8, 0x3Au8, 0x3Bu8, 0x7Cu8],
            bonus_boundary_white: BONUS_BOUNDARY + 2,
            bonus_boundary_delimiter: BONUS_BOUNDARY + 1,
            initial_char_class: CharClass::Whitespace,
            normalize: true,
            ignore_case: true,
            prefer_prefix: false,
        }
    }
}

/// Bonus for matching a character of class `class` that follows one of
/// class `prev`.
pub open spec fn bonus(white: u16, delim: u16, prev: CharClass, class: CharClass) -> u16 {
    if class.spec_is_word() && prev is Whitespace {
        white
    } else if class.spec_is_word() && prev is Delimiter {
        delim
    } else if class.spec_is_word() && prev is NonWord {
        BONUS_BOUNDARY
    } else if (prev is Lower && class is Upper) || (!(prev is Number) && class is Number) {
        BONUS_CAMEL123
    } else if class is NonWord {
        BONUS_NON_WORD
    } else if class is Whitespace {
        white
    } else {
        0
    }
}

impl MatcherConfig {
    pub open spec fn spec_bonus_for(&self, prev: CharClass, class: CharClass) -> u16 {
        bonus(
            self.bonus_boundary_white,
            self.bonus_boundary_delimiter,
            prev,
            class,
        )
    }

    /// Bonus for matching a character of class `class` after one of class `prev`.
    pub fn bonus_for(&self, prev: CharClass, class: CharClass) -> (r: u16)
        ensures
            r == self.spec_bonus_for(prev, class),
    {
        if class.is_word() {
            match prev {
                CharClass::Whitespace => return self.bonus_boundary_white,
                CharClass::Delimiter => return self.bonus_boundary_delimiter,
                CharClass::NonWord => return BONUS_BOUNDARY,
                _ => {},
            }
        }
        let prev_number = match prev {
            CharClass::Number => true,
            _ => false,
        };
        match (prev, class) {
            (CharClass::Lower, CharClass::Upper) => BONUS_CAMEL123,
            (_, CharClass::Number) if !prev_number => BONUS_CAMEL123,
            (_, CharClass::NonWord) => BONUS_NON_WORD,
            (_, CharClass::Whitespace) => self.bonus_boundary_white,
            _ => 0,
        }
    }
}

} // verus!
