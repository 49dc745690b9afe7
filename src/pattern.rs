//! Patterns: atoms parsed from the pattern mini-language, and their scoring
//! against a haystack.
use vstd::prelude::*;

use crate::chars::{char_class, is_upper_case, lower, to_lower_case};
use crate::matcher::{
    ascii_mismatch, best_occurrence, best_single, exact_some, fuzzy_optimal_score, fuzzy_some,
    greedy_match_score, optimal_applies, postfix_some, prefix_some, single_score,
    substring_some, window_match_score, Matcher,
};
use crate::optimal::fits;
use crate::score::{bonus_seq, norm_seq, valid_indices};
use crate::matcher::{lemma_span_valid, span};
use crate::utf32_str::occurs_at;
use crate::search::first_from;
use crate::config::MatcherConfig;
use crate::utf32_str::{text_chars, text_chars_of, Utf32Str};
use crate::utf32_string::Utf32String;

verus! {

/// How case differences are treated.
#[derive(Clone, Copy, Debug, PartialEq, Eq, Structural)]
pub enum CaseMatching {
    /// Characters match their case-folded form.
    Ignore,
    /// Case must agree.
    Respect,
    /// Like `Ignore` when the atom has no uppercase character, like `Respect` otherwise.
    Smart,
}

impl Default for CaseMatching {
    fn default() -> (r: Self)
        ensures
            r == CaseMatching::Smart,
    {
        CaseMatching::Smart
    }
}

/// The matching algorithm of an atom.
#[derive(Clone, Copy, Debug, PartialEq, Eq, Structural)]
pub enum AtomKind {
    /// The needle's characters in order, gaps allowed.
    Fuzzy,
    /// The needle as a contiguous part of the haystack (`'foo`, `!foo`).
    Substring,
    /// The needle at the start of the haystack (`^foo`).
    Prefix,
    /// The needle at the end of the haystack (`foo$`).
    Postfix,
    /// The needle equal to the haystack (`^foo$`).
    Exact,
}

/// What an atom holds.
pub struct AtomView {
    pub negative: bool,
    pub kind: AtomKind,
    pub needle: Seq<char>,
    pub ignore_case: bool,
}

/// Whether `c` is an uppercase letter.
pub open spec fn is_upper(c: char) -> bool {
    char_class(c, Seq::empty()) is Upper
}

/// `cs` with each escaped space (`\ `) replaced by a space.
pub open spec fn unescape_spaces(cs: Seq<char>) -> Seq<char>
    decreases cs.len(),
{
    if cs.len() == 0 {
        cs
    } else if cs.len() >= 2 && cs[0] == '\\' && cs[1] == ' ' {
        seq![' '] + unescape_spaces(cs.subrange(2, cs.len() as int))
    } else {
        seq![cs[0]] + unescape_spaces(cs.subrange(1, cs.len() as int))
    }
}

/// The needle text after case folding.
pub open spec fn folded(cs: Seq<char>, case: CaseMatching) -> Seq<char> {
    if case is Ignore {
        cs.map_values(|c: char| lower(c))
    } else {
        cs
    }
}

/// Whether an atom with needle text `cs` ignores case.
pub open spec fn ignores_case(cs: Seq<char>, case: CaseMatching) -> bool {
    match case {
        CaseMatching::Ignore => true,
        CaseMatching::Respect => false,
        CaseMatching::Smart => forall|i: int| 0 <= i < cs.len() ==> !is_upper(#[trigger] cs[i]),
    }
}

/// The atom built from needle text `cs`.
pub open spec fn atom_view(
    cs: Seq<char>,
    case: CaseMatching,
    kind: AtomKind,
    escape_whitespace: bool,
    append_dollar: bool,
) -> AtomView {
    let text = if escape_whitespace {
        unescape_spaces(cs)
    } else {
        cs
    };
    AtomView {
        negative: false,
        kind,
        needle: folded(text, case) + if append_dollar {
            seq!['$']
        } else {
            Seq::empty()
        },
        ignore_case: ignores_case(text, case),
    }
}

/// A leading `!` negates the atom; `\!` is a literal `!`.
pub open spec fn strip_negation(cs: Seq<char>) -> (bool, Seq<char>) {
    if cs.len() >= 1 && cs[0] == '!' {
        (true, cs.drop_first())
    } else if cs.len() >= 2 && cs[0] == '\\' && cs[1] == '!' {
        (false, cs.drop_first())
    } else {
        (false, cs)
    }
}

/// A leading `^` asks for a prefix match, a leading `'` for a substring
/// match; `\^` and `\'` are literal.
pub open spec fn strip_kind(cs: Seq<char>) -> (AtomKind, Seq<char>) {
    if cs.len() >= 1 && cs[0] == '^' {
        (AtomKind::Prefix, cs.drop_first())
    } else if cs.len() >= 1 && cs[0] == '\'' {
        (AtomKind::Substring, cs.drop_first())
    } else if cs.len() >= 2 && cs[0] == '\\' && (cs[1] == '^' || cs[1] == '\'') {
        (AtomKind::Fuzzy, cs.drop_first())
    } else {
        (AtomKind::Fuzzy, cs)
    }
}

/// A trailing `$` asks for a postfix match (an exact one after `^`); `\$`
/// is a literal `$`, reported by the third component.
pub open spec fn strip_suffix(kind: AtomKind, cs: Seq<char>) -> (AtomKind, Seq<char>, bool) {
    if cs.len() >= 2 && cs[cs.len() - 2] == '\\' && cs[cs.len() - 1] == '$' {
        (kind, cs.subrange(0, cs.len() - 2), true)
    } else if cs.len() >= 1 && cs[cs.len() - 1] == '$' {
        (
            if kind is Fuzzy {
                AtomKind::Postfix
            } else {
                AtomKind::Exact
            },
            cs.drop_last(),
            false,
        )
    } else {
        (kind, cs, false)
    }
}

/// The atom that the text `cs` parses to.
pub open spec fn parsed(cs: Seq<char>, case: CaseMatching) -> AtomView {
    let (invert, a) = strip_negation(cs);
    let (k1, b) = strip_kind(a);
    let (k2, body, dollar) = strip_suffix(k1, b);
    let kind = if invert && k2 is Fuzzy {
        AtomKind::Substring
    } else {
        k2
    };
    let base = atom_view(body, case, kind, true, dollar);
    AtomView { negative: invert, ..base }
}

/// The words of a pattern line: split at spaces not escaped by a backslash.
pub open spec fn split_from(cs: Seq<char>, i: int, saw: bool, cur: Seq<char>) -> Seq<Seq<char>>
    decreases cs.len() - i,
{
    if i >= cs.len() {
        seq![cur]
    } else if cs[i] == ' ' && !saw {
        seq![cur] + split_from(cs, i + 1, false, Seq::empty())
    } else {
        split_from(cs, i + 1, cs[i] == '\\', cur.push(cs[i]))
    }
}

pub open spec fn split_words(cs: Seq<char>) -> Seq<Seq<char>> {
    split_from(cs, 0, false, Seq::empty())
}

/// The atoms of the words `ws` that have a non-empty needle.
pub open spec fn keep_nonempty(atoms: Seq<AtomView>) -> Seq<AtomView>
    decreases atoms.len(),
{
    if atoms.len() == 0 {
        atoms
    } else {
        let rest = keep_nonempty(atoms.drop_last());
        if atoms.last().needle.len() > 0 {
            rest.push(atoms.last())
        } else {
            rest
        }
    }
}

/// The atoms of a pattern line, parsed with the atom syntax.
pub open spec fn parsed_pattern(text: Seq<char>, case: CaseMatching) -> Seq<AtomView> {
    keep_nonempty(split_words(text).map_values(|w: Seq<char>| parsed(w, case)))
}

/// The atoms of a pattern line, every word of kind `kind`.
pub open spec fn literal_pattern(text: Seq<char>, case: CaseMatching, kind: AtomKind) -> Seq<
    AtomView,
> {
    keep_nonempty(split_words(text).map_values(|w: Seq<char>| atom_view(w, case, kind, true, false)))
}

/// Whether the matcher finds `n` in `h` with the algorithm of `kind`.
pub open spec fn kind_matches(
    cfg: MatcherConfig,
    kind: AtomKind,
    h_ascii: bool,
    h: Seq<char>,
    n: Seq<char>,
) -> bool {
    !ascii_mismatch(h_ascii, n) && match kind {
        AtomKind::Fuzzy => fuzzy_some(cfg, h, n),
        AtomKind::Substring => substring_some(cfg, h, n),
        AtomKind::Prefix => prefix_some(cfg, h, n),
        AtomKind::Postfix => postfix_some(cfg, h, n),
        AtomKind::Exact => exact_some(cfg, h, n),
    }
}

/// Whether `s` is the score that the matcher algorithm of `kind` gives `n`
/// in `h` under `cfg` (see the matcher's functions).
pub open spec fn kind_score(cfg: MatcherConfig, kind: AtomKind, h: Seq<char>, n: Seq<char>, s: u16) -> bool {
    match kind {
        AtomKind::Exact => s == window_match_score(cfg, h, n, 0, h.len() as int),
        AtomKind::Prefix => s == window_match_score(cfg, h, n, 0, n.len() as int),
        AtomKind::Postfix => s == window_match_score(
            cfg,
            h,
            n,
            h.len() - n.len(),
            h.len() as int,
        ),
        AtomKind::Substring => exists|p: int|
            best_occurrence(cfg, h, n, p) && s == window_match_score(cfg, h, n, p, p + n.len()),
        AtomKind::Fuzzy => {
            &&& n.len() == h.len() ==> s == window_match_score(cfg, h, n, 0, h.len() as int)
            &&& forall|start: int, offs: Seq<usize>|
                #[trigger] optimal_applies(cfg, h, n, start, offs) ==> s == fuzzy_optimal_score(
                    cfg,
                    h,
                    n,
                    start,
                    offs,
                )
            &&& forall|start: int|
                #[trigger] first_from(norm_seq(cfg, h), norm_seq(cfg, n)[0], 0, start) && 2
                    <= n.len() < h.len() && !fits(h.len() - start, n.len() as int) ==> s
                    == greedy_match_score(cfg, h, n, start)
            &&& (n.len() == 1 && h.len() > 1) ==> exists|p: int|
                best_single(cfg, h, n, p) && s == single_score(
                    cfg.prefer_prefix,
                    bonus_seq(cfg, h),
                    p,
                )
        },
    }
}

/// `cfg` with case handling set to `ignore_case`.
pub open spec fn with_case(cfg: MatcherConfig, ignore_case: bool) -> MatcherConfig {
    MatcherConfig { ignore_case, ..cfg }
}

/// A single pattern component, matched with one matcher function.
#[derive(Debug, Clone)]
pub struct Atom {
    /// Whether a match of this atom rejects the haystack.
    pub negative: bool,
    /// The matching algorithm.
    pub kind: AtomKind,
    needle: Utf32String,
    ignore_case: bool,
}

impl View for Atom {
    type V = AtomView;

    closed spec fn view(&self) -> AtomView {
        AtomView {
            negative: self.negative,
            kind: self.kind,
            needle: self.needle@,
            ignore_case: self.ignore_case,
        }
    }
}

/// Copies `v[a..b]`.
fn copy_range(v: &Vec<char>, a: usize, b: usize) -> (r: Vec<char>)
    requires
        a <= b <= v@.len(),
    ensures
        r@ == v@.subrange(a as int, b as int),
{
    vstd::slice::slice_to_vec(vstd::slice::slice_subrange(v.as_slice(), a, b))
}

/// Replaces each escaped space with a space.
fn unescape(cs: &Vec<char>) -> (r: Vec<char>)
    ensures
        r@ == unescape_spaces(cs@),
{
    let mut out: Vec<char> = Vec::new();
    let mut i: usize = 0;
    let n = cs.len();
    assert(cs@.subrange(0, n as int) =~= cs@);
    while i < n
        invariant
            n == cs@.len(),
            i <= n,
            out@ + unescape_spaces(cs@.subrange(i as int, n as int)) == unescape_spaces(cs@),
        decreases n - i,
    {
        let ghost rest = cs@.subrange(i as int, n as int);
        if i + 1 < n && cs[i] == '\\' && cs[i + 1] == ' ' {
            out.push(' ');
            proof {
                assert(rest.subrange(2, rest.len() as int) =~= cs@.subrange(i + 2, n as int));
                assert(out@ + unescape_spaces(cs@.subrange(i + 2, n as int)) =~= unescape_spaces(
                    cs@,
                ));
            }
            i += 2;
        } else {
            out.push(cs[i]);
            proof {
                assert(rest.subrange(1, rest.len() as int) =~= cs@.subrange(i + 1, n as int));
                assert(out@ + unescape_spaces(cs@.subrange(i + 1, n as int)) =~= unescape_spaces(
                    cs@,
                ));
            }
            i += 1;
        }
    }
    assert(cs@.subrange(n as int, n as int) =~= Seq::<char>::empty());
    assert(out@ =~= unescape_spaces(cs@));
    out
}

impl Atom {
    pub closed spec fn wf(&self) -> bool {
        self.needle.wf()
    }

    /// Builds an atom from needle text (no atom syntax is interpreted).
    pub fn new(needle: &str, case: CaseMatching, kind: AtomKind, escape_whitespace: bool) -> (r:
        Atom)
        ensures
            r@ == atom_view(text_chars(needle@), case, kind, escape_whitespace, false),
            r.wf(),
    {
        let cs = text_chars_of(needle);
        Atom::new_inner(&cs, case, kind, escape_whitespace, false)
    }

    fn new_inner(
        cs: &Vec<char>,
        case: CaseMatching,
        kind: AtomKind,
        escape_whitespace: bool,
        append_dollar: bool,
    ) -> (r: Atom)
        ensures
            r@ == atom_view(cs@, case, kind, escape_whitespace, append_dollar),
            r.wf(),
    {
        let text = if escape_whitespace {
            unescape(cs)
        } else {
            copy_range(cs, 0, cs.len())
        };
        assert(text@ == if escape_whitespace {
            unescape_spaces(cs@)
        } else {
            cs@
        }) by {
            if !escape_whitespace {
                assert(cs@.subrange(0, cs@.len() as int) =~= cs@);
            }
        }
        let mut needle = Utf32String::default();
        let mut ignore_case = match case {
            CaseMatching::Respect => false,
            _ => true,
        };
        let mut i: usize = 0;
        while i < text.len()
            invariant
                i <= text@.len(),
                needle.wf(),
                needle@ == folded(text@, case).subrange(0, i as int),
                case is Smart ==> ignore_case == forall|k: int|
                    0 <= k < i ==> !is_upper(#[trigger] text@[k]),
                !(case is Smart) ==> ignore_case == !(case is Respect),
            decreases text@.len() - i,
        {
            let c = text[i];
            let d = match case {
                CaseMatching::Ignore => to_lower_case(c),
                _ => c,
            };
            if case == CaseMatching::Smart && is_upper_case(c) {
                ignore_case = false;
            }
            needle.push(d);
            i += 1;
            proof {
                assert(needle@ =~= folded(text@, case).subrange(0, i as int));
                if case is Smart {
                    assert(ignore_case == forall|k: int|
                        0 <= k < i ==> !is_upper(#[trigger] text@[k])) by {
                        if !ignore_case && !is_upper(c) {
                            let k = choose|k: int| 0 <= k < i - 1 && is_upper(#[trigger] text@[k]);
                            assert(is_upper(text@[k]));
                        }
                    }
                }
            }
        }
        assert(folded(text@, case).subrange(0, i as int) =~= folded(text@, case));
        let ghost body = needle@;
        if append_dollar {
            needle.push('$');
        }
        assert(needle@ =~= body + if append_dollar {
            seq!['$']
        } else {
            Seq::empty()
        });
        assert(ignore_case == ignores_case(text@, case));
        Atom { negative: false, kind, needle, ignore_case }
    }

    /// Parses one atom: a leading `!` negates, `^` and `'` select prefix and
    /// substring matching, a trailing `$` postfix matching (exact after
    /// `^`); a backslash makes each of these literal, and `\ ` is a space.
    /// A negated fuzzy atom matches as a substring.
    pub fn parse(raw: &str, case: CaseMatching) -> (r: Atom)
        ensures
            r@ == parsed(text_chars(raw@), case),
            r.wf(),
    {
        let cs = text_chars_of(raw);
        Atom::parse_chars(&cs, case)
    }

    #[verifier::rlimit(60)]
    fn parse_chars(cs: &Vec<char>, case: CaseMatching) -> (r: Atom)
        ensures
            r@ == parsed(cs@, case),
            r.wf(),
    {
        let n = cs.len();
        let (invert, a) = if n >= 1 && cs[0] == '!' {
            (true, copy_range(cs, 1, n))
        } else if n >= 2 && cs[0] == '\\' && cs[1] == '!' {
            (false, copy_range(cs, 1, n))
        } else {
            (false, copy_range(cs, 0, n))
        };
        proof {
            assert(cs@.drop_first() =~= cs@.subrange(1, n as int));
            assert(cs@ =~= cs@.subrange(0, n as int));
            assert((invert, a@) == strip_negation(cs@));
        }
        let an = a.len();
        let (k1, b) = if an >= 1 && a[0] == '^' {
            (AtomKind::Prefix, copy_range(&a, 1, an))
        } else if an >= 1 && a[0] == '\'' {
            (AtomKind::Substring, copy_range(&a, 1, an))
        } else if an >= 2 && a[0] == '\\' && (a[1] == '^' || a[1] == '\'') {
            (AtomKind::Fuzzy, copy_range(&a, 1, an))
        } else {
            (AtomKind::Fuzzy, copy_range(&a, 0, an))
        };
        proof {
            assert(a@.drop_first() =~= a@.subrange(1, an as int));
            assert(a@ =~= a@.subrange(0, an as int));
            assert((k1, b@) == strip_kind(a@));
        }
        let bn = b.len();
        let (k2, body, dollar) = if bn >= 2 && b[bn - 2] == '\\' && b[bn - 1] == '$' {
            (k1, copy_range(&b, 0, bn - 2), true)
        } else if bn >= 1 && b[bn - 1] == '$' {
            let k = match k1 {
                AtomKind::Fuzzy => AtomKind::Postfix,
                _ => AtomKind::Exact,
            };
            (k, copy_range(&b, 0, bn - 1), false)
        } else {
            (k1, copy_range(&b, 0, bn), false)
        };
        proof {
            assert(b@.drop_last() =~= b@.subrange(0, bn - 1));
            assert(b@ =~= b@.subrange(0, bn as int));
            assert((k2, body@, dollar) == strip_suffix(k1, b@));
        }
        let kind = match (invert, k2) {
            (true, AtomKind::Fuzzy) => AtomKind::Substring,
            _ => k2,
        };
        let mut atom = Atom::new_inner(&body, case, kind, true, dollar);
        atom.negative = invert;
        atom
    }

    /// The needle as passed to the matcher; match indices index into it.
    pub fn needle_text(&self) -> (r: Utf32Str<'_>)
        ensures
            r@ == self@.needle,
    {
        self.needle.as_utf32_str()
    }

    /// Whether this atom ignores case.
    pub fn ignore_case(&self) -> (r: bool)
        ensures
            r == self@.ignore_case,
    {
        self.ignore_case
    }

    /// Whether this atom is negated.
    pub fn is_negative(&self) -> (r: bool)
        ensures
            r == self@.negative,
    {
        self.negative
    }

    /// The matching algorithm of this atom.
    pub fn atom_kind(&self) -> (r: AtomKind)
        ensures
            r == self@.kind,
    {
        self.kind
    }

    /// Scores `haystack` with this atom, after setting the matcher's case
    /// handling to the atom's. A negative atom scores 0 when its needle does
    /// not match and rejects the haystack when it does.
    pub fn score(&self, haystack: Utf32Str, matcher: &mut Matcher) -> (r: Option<u16>)
        requires
            old(matcher).config.wf(),
            haystack.wf(),
            haystack@.len() <= u32::MAX,
        ensures
            final(matcher).config == with_case(old(matcher).config, self@.ignore_case),
            ({
                let found = kind_matches(
                    final(matcher).config,
                    self@.kind,
                    haystack.spec_is_ascii(),
                    haystack@,
                    self@.needle,
                );
                if self@.negative {
                    r == if found {
                        None::<u16>
                    } else {
                        Some(0u16)
                    }
                } else {
                    r is Some <==> found
                }
            }),
            (!self@.negative && r is Some) ==> kind_score(
                final(matcher).config,
                self@.kind,
                haystack@,
                self@.needle,
                r->0,
            ),
    {
        matcher.config.ignore_case = self.ignore_case;
        let needle = self.needle.as_utf32_str();
        let found = match self.kind {
            AtomKind::Exact => matcher.exact_match(haystack, needle),
            AtomKind::Fuzzy => matcher.fuzzy_match(haystack, needle),
            AtomKind::Substring => matcher.substring_match(haystack, needle),
            AtomKind::Prefix => matcher.prefix_match(haystack, needle),
            AtomKind::Postfix => matcher.postfix_match(haystack, needle),
        };
        if self.negative {
            if found.is_some() {
                None
            } else {
                Some(0)
            }
        } else {
            found
        }
    }

    /// Like `score`, and for a positive atom appends the matched positions
    /// to `indices`.
    pub fn indices(&self, haystack: Utf32Str, matcher: &mut Matcher, indices: &mut Vec<u32>) -> (r:
        Option<u16>)
        requires
            old(matcher).config.wf(),
            haystack.wf(),
            haystack@.len() <= u32::MAX,
        ensures
            final(matcher).config == with_case(old(matcher).config, self@.ignore_case),
            ({
                let found = kind_matches(
                    final(matcher).config,
                    self@.kind,
                    haystack.spec_is_ascii(),
                    haystack@,
                    self@.needle,
                );
                if self@.negative {
                    r == if found {
                        None::<u16>
                    } else {
                        Some(0u16)
                    }
                } else {
                    r is Some <==> found
                }
            }),
            (self@.negative || r is None) ==> final(indices)@ == old(indices)@,
            (!self@.negative && r is Some) ==> exists|new: Seq<u32>|
                final(indices)@ == old(indices)@ + new && valid_indices(
                    norm_seq(final(matcher).config, haystack@),
                    norm_seq(final(matcher).config, self@.needle),
                    new,
                ),
            (!self@.negative && r is Some) ==> kind_score(
                final(matcher).config,
                self@.kind,
                haystack@,
                self@.needle,
                r->0,
            ),
    {
        if self.negative {
            return self.score(haystack, matcher);
        }
        matcher.config.ignore_case = self.ignore_case;
        let needle = self.needle.as_utf32_str();
        let ghost cfg = matcher.config;
        let ghost before = indices@;
        let ghost hs = norm_seq(cfg, haystack@);
        let ghost ns = norm_seq(cfg, needle@);
        let ghost len = haystack@.len() as int;
        let ghost m = needle@.len() as int;
        let r = match self.kind {
            AtomKind::Exact => matcher.exact_indices(haystack, needle, indices),
            AtomKind::Fuzzy => matcher.fuzzy_indices(haystack, needle, indices),
            AtomKind::Substring => matcher.substring_indices(haystack, needle, indices),
            AtomKind::Prefix => matcher.prefix_indices(haystack, needle, indices),
            AtomKind::Postfix => matcher.postfix_indices(haystack, needle, indices),
        };
        proof {
            if r is Some {
                match self.kind {
                    AtomKind::Exact => {
                        assert(hs.subrange(0, len) == ns);
                        lemma_span_valid(hs, ns, 0, len);
                        assert(indices@ == before + span(0, len));
                    },
                    AtomKind::Prefix => {
                        assert(hs.subrange(0, m) == ns);
                        lemma_span_valid(hs, ns, 0, m);
                        assert(indices@ == before + span(0, m));
                    },
                    AtomKind::Postfix => {
                        assert(hs.subrange(len - m, len) == ns);
                        lemma_span_valid(hs, ns, len - m, len);
                        assert(indices@ == before + span(len - m, len));
                    },
                    AtomKind::Substring => {
                        let p = choose|p: int|
                            best_occurrence(cfg, haystack@, needle@, p) && r->0 == window_match_score(
                                cfg,
                                haystack@,
                                needle@,
                                p,
                                p + m,
                            ) && indices@ == before + span(p, p + m);
                        assert(occurs_at(hs, ns, p));
                        lemma_span_valid(hs, ns, p, p + m);
                    },
                    AtomKind::Fuzzy => {},
                }
            }
        }
        r
    }
}

/// Whether an atom lets a haystack through under `cfg` (with the atom's
/// case handling).
pub open spec fn atom_passes(cfg: MatcherConfig, a: AtomView, h_ascii: bool, h: Seq<char>) -> bool {
    let found = kind_matches(with_case(cfg, a.ignore_case), a.kind, h_ascii, h, a.needle);
    if a.negative {
        !found
    } else {
        found
    }
}

/// Whether `s` is the score an atom gives a haystack it lets through: 0
/// for a negative atom, its algorithm's score otherwise.
pub open spec fn atom_score(cfg: MatcherConfig, a: AtomView, h: Seq<char>, s: u16) -> bool {
    if a.negative {
        s == 0
    } else {
        kind_score(with_case(cfg, a.ignore_case), a.kind, h, a.needle, s)
    }
}

/// The sum of the atoms' scores, saturating at the largest `u32`.
pub open spec fn total_score(scores: Seq<u16>) -> u32
    decreases scores.len(),
{
    if scores.len() == 0 {
        0
    } else {
        total_score(scores.drop_last()).saturating_add(scores.last() as u32)
    }
}

/// Whether `t` is the score a pattern with atoms `atoms` gives a haystack
/// it lets through: the saturating sum of the atoms' scores.
pub open spec fn pattern_total(cfg: MatcherConfig, atoms: Seq<AtomView>, h: Seq<char>, t: u32) -> bool {
    exists|scores: Seq<u16>|
        scores.len() == atoms.len() && (forall|k: int|
            0 <= k < scores.len() ==> atom_score(cfg, #[trigger] atoms[k], h, scores[k])) && t
            == total_score(scores)
}

/// A pattern's total does not depend on the case handling that the
/// matcher was left with: each atom sets its own.
pub proof fn lemma_pattern_total_case(
    cfg: MatcherConfig,
    ignore_case: bool,
    atoms: Seq<AtomView>,
    h: Seq<char>,
    t: u32,
)
    requires
        pattern_total(with_case(cfg, ignore_case), atoms, h, t),
    ensures
        pattern_total(cfg, atoms, h, t),
{
    let scores = choose|scores: Seq<u16>|
        scores.len() == atoms.len() && (forall|k: int|
            0 <= k < scores.len() ==> atom_score(
                with_case(cfg, ignore_case),
                #[trigger] atoms[k],
                h,
                scores[k],
            )) && t == total_score(scores);
    assert forall|k: int| 0 <= k < scores.len() implies atom_score(cfg, #[trigger] atoms[k], h, scores[k]) by {
        assert(with_case(with_case(cfg, ignore_case), atoms[k].ignore_case) == with_case(
            cfg,
            atoms[k].ignore_case,
        ));
    }
}

/// Whether ranked item `a` comes before `b`: higher score first, then
/// earlier item.
pub open spec fn ranked_before(a: (usize, u32), b: (usize, u32)) -> bool {
    a.1 > b.1 || (a.1 == b.1 && a.0 < b.0)
}

/// Whether every atom lets the text `t` through under `cfg`.
pub open spec fn text_passes(cfg: MatcherConfig, atoms: Seq<AtomView>, t: Seq<char>) -> bool {
    forall|k: int|
        0 <= k < atoms.len() ==> atom_passes(
            cfg,
            #[trigger] atoms[k],
            crate::utf32_str::ascii_graphemes(t),
            text_chars(t),
        )
}

/// Splits a pattern line into words at spaces not escaped by a backslash.
fn split_words_of(cs: &Vec<char>) -> (r: Vec<Vec<char>>)
    ensures
        r@.map_values(|w: Vec<char>| w@) == split_words(cs@),
{
    let mut out: Vec<Vec<char>> = Vec::new();
    let mut cur: Vec<char> = Vec::new();
    let mut saw = false;
    let mut i: usize = 0;
    let n = cs.len();
    while i < n
        invariant
            n == cs@.len(),
            i <= n,
            out@.map_values(|w: Vec<char>| w@) + split_from(cs@, i as int, saw, cur@)
                == split_words(cs@),
        decreases n - i,
    {
        let ghost prev = out@.map_values(|w: Vec<char>| w@);
        let c = cs[i];
        if c == ' ' && !saw {
            let ghost word = cur@;
            out.push(cur);
            cur = Vec::new();
            proof {
                assert(out@.map_values(|w: Vec<char>| w@) =~= prev.push(word));
                assert(prev + split_from(cs@, i as int, saw, word) =~= prev.push(word)
                    + split_from(cs@, i + 1, false, Seq::empty()));
                assert(cur@ =~= Seq::<char>::empty());
            }
        } else {
            cur.push(c);
            saw = c == '\\';
        }
        i += 1;
    }
    let ghost prev = out@.map_values(|w: Vec<char>| w@);
    let ghost word = cur@;
    out.push(cur);
    proof {
        assert(out@.map_values(|w: Vec<char>| w@) =~= prev.push(word));
        assert(prev + seq![word] =~= prev.push(word));
    }
    out
}

/// A pattern: atoms that must all let a haystack through.
#[derive(Debug, Clone)]
pub struct Pattern {
    /// The atoms, one per word.
    pub atoms: Vec<Atom>,
}

impl Default for Pattern {
    fn default() -> (r: Self)
        ensures
            r.atoms@.len() == 0,
    {
        Pattern { atoms: Vec::new() }
    }
}

impl Pattern {
    /// The atoms as values.
    pub open spec fn atom_views(&self) -> Seq<AtomView> {
        self.atoms@.map_values(|a: Atom| a@)
    }

    pub open spec fn wf(&self) -> bool {
        forall|k: int| 0 <= k < self.atoms@.len() ==> (#[trigger] self.atoms@[k]).wf()
    }

    /// Builds the atoms of the words of `cs`, each with `parse` semantics
    /// when `kind` is `None` and as a literal of `kind` otherwise; atoms
    /// with an empty needle are left out.
    fn atoms_of(cs: &Vec<char>, case: CaseMatching, kind: Option<AtomKind>) -> (r: Vec<Atom>)
        ensures
            r@.map_values(|a: Atom| a@) == match kind {
                None => parsed_pattern(cs@, case),
                Some(k) => literal_pattern(cs@, case, k),
            },
            forall|q: int| 0 <= q < r@.len() ==> (#[trigger] r@[q]).wf(),
    {
        let words = split_words_of(cs);
        let ghost ws = words@.map_values(|w: Vec<char>| w@);
        let ghost built = match kind {
            None => ws.map_values(|w: Seq<char>| parsed(w, case)),
            Some(k) => ws.map_values(|w: Seq<char>| atom_view(w, case, k, true, false)),
        };
        let mut atoms: Vec<Atom> = Vec::new();
        let mut i: usize = 0;
        while i < words.len()
            invariant
                i <= words@.len(),
                ws == words@.map_values(|w: Vec<char>| w@),
                built.len() == ws.len(),
                forall|q: int|
                    0 <= q < ws.len() ==> #[trigger] built[q] == match kind {
                        None => parsed(ws[q], case),
                        Some(k) => atom_view(ws[q], case, k, true, false),
                    },
                atoms@.map_values(|a: Atom| a@) == keep_nonempty(built.subrange(0, i as int)),
                forall|q: int| 0 <= q < atoms@.len() ==> (#[trigger] atoms@[q]).wf(),
            decreases words@.len() - i,
        {
            let w = &words[i];
            assert(ws[i as int] == w@);
            let atom = match kind {
                None => Atom::parse_chars(w, case),
                Some(k) => Atom::new_inner(w, case, k, true, false),
            };
            let ghost prev = atoms@.map_values(|a: Atom| a@);
            assert(built.subrange(0, i + 1).drop_last() =~= built.subrange(0, i as int));
            if !atom.needle.is_empty() {
                let ghost av = atom@;
                atoms.push(atom);
                assert(atoms@.map_values(|a: Atom| a@) =~= prev.push(av));
            }
            i += 1;
        }
        assert(built.subrange(0, i as int) =~= built);
        proof {
            match kind {
                None => {
                    assert(built =~= split_words(cs@).map_values(|w: Seq<char>| parsed(w, case)));
                },
                Some(k) => {
                    assert(built =~= split_words(cs@).map_values(
                        |w: Seq<char>| atom_view(w, case, k, true, false),
                    ));
                },
            }
        }
        atoms
    }

    /// A pattern whose words are all atoms of kind `kind`; spaces can be
    /// escaped with a backslash, and no other syntax is interpreted.
    pub fn new(case_matching: CaseMatching, kind: AtomKind, pattern: &str) -> (r: Pattern)
        ensures
            r.atom_views() == literal_pattern(text_chars(pattern@), case_matching, kind),
            r.wf(),
    {
        let cs = text_chars_of(pattern);
        Pattern { atoms: Pattern::atoms_of(&cs, case_matching, Some(kind)) }
    }

    /// A pattern whose words are parsed with the atom syntax (see
    /// `Atom::parse`).
    pub fn parse(case_matching: CaseMatching, pattern: &str) -> (r: Pattern)
        ensures
            r.atom_views() == parsed_pattern(text_chars(pattern@), case_matching),
            r.wf(),
    {
        let cs = text_chars_of(pattern);
        Pattern { atoms: Pattern::atoms_of(&cs, case_matching, None) }
    }

    /// Replaces the atoms with those parsed from `pattern`.
    pub fn reparse(&mut self, pattern: &str, case_matching: CaseMatching)
        ensures
            final(self).atom_views() == parsed_pattern(text_chars(pattern@), case_matching),
            final(self).wf(),
    {
        let cs = text_chars_of(pattern);
        self.atoms = Pattern::atoms_of(&cs, case_matching, None);
    }

    /// The sum of the atoms' scores, or `None` when an atom rejects the
    /// haystack. A pattern without atoms scores 0.
    pub fn score(&self, haystack: Utf32Str, matcher: &mut Matcher) -> (r: Option<u32>)
        requires
            self.wf(),
            old(matcher).config.wf(),
            haystack.wf(),
            haystack@.len() <= u32::MAX,
        ensures
            final(matcher).config == with_case(old(matcher).config, final(matcher).config.ignore_case),
            r is Some <==> forall|k: int|
                0 <= k < self.atoms@.len() ==> atom_passes(
                    old(matcher).config,
                    #[trigger] self.atoms@[k]@,
                    haystack.spec_is_ascii(), haystack@,
                ),
            self.atoms@.len() == 0 ==> r == Some(0u32),
            r is Some ==> exists|scores: Seq<u16>|
                scores.len() == self.atoms@.len() && (forall|k: int|
                    0 <= k < scores.len() ==> atom_score(
                        old(matcher).config,
                        #[trigger] self.atoms@[k]@,
                        haystack@,
                        scores[k],
                    )) && r->0 == total_score(scores),
            r is Some ==> pattern_total(old(matcher).config, self.atom_views(), haystack@, r->0),
    {
        let ghost cfg = matcher.config;
        let ghost scores: Seq<u16> = Seq::empty();
        let mut total: u32 = 0;
        let mut k: usize = 0;
        while k < self.atoms.len()
            invariant
                self.wf(),
                k <= self.atoms@.len(),
                matcher.config == with_case(cfg, matcher.config.ignore_case),
                cfg == old(matcher).config,
                cfg.wf(),
                haystack.wf(),
                haystack@.len() <= u32::MAX,
                self.atoms@.len() == 0 ==> total == 0,
                forall|q: int|
                    0 <= q < k ==> atom_passes(cfg, #[trigger] self.atoms@[q]@, haystack.spec_is_ascii(), haystack@),
                scores.len() == k,
                forall|q: int|
                    0 <= q < k ==> atom_score(cfg, #[trigger] self.atoms@[q]@, haystack@, scores[q]),
                total == total_score(scores),
            decreases self.atoms@.len() - k,
        {
            let atom = &self.atoms[k];
            let ghost before = matcher.config;
            let res = atom.score(haystack, matcher);
            proof {
                assert(with_case(before, atom@.ignore_case) == with_case(cfg, atom@.ignore_case));
                assert(matcher.config == with_case(cfg, matcher.config.ignore_case));
            }
            match res {
                Some(s) => {
                    proof {
                        let old_scores = scores;
                        scores = scores.push(s);
                        assert(scores.drop_last() == old_scores);
                        assert forall|q: int| 0 <= q < k + 1 implies atom_score(
                            cfg,
                            #[trigger] self.atoms@[q]@,
                            haystack@,
                            scores[q],
                        ) by {
                            if q < k {
                                assert(scores[q] == old_scores[q]);
                            }
                        }
                    }
                    total = total.saturating_add(s as u32);
                },
                None => {
                    assert(!atom_passes(cfg, self.atoms@[k as int]@, haystack.spec_is_ascii(), haystack@));
                    return None;
                },
            }
            k += 1;
        }
        proof {
            assert forall|q: int| 0 <= q < scores.len() implies atom_score(
                cfg,
                #[trigger] self.atom_views()[q],
                haystack@,
                scores[q],
            ) by {
                assert(self.atom_views()[q] == self.atoms@[q]@);
            }
        }
        Some(total)
    }

    /// Scores a (small) list of texts on the current thread: the items
    /// that match, as (item, score), best first and earlier items first
    /// among equal scores.
    pub fn match_list(&self, matcher: &mut Matcher, items: &Vec<&str>) -> (r: Vec<(usize, u32)>)
        requires
            self.wf(),
            old(matcher).config.wf(),
            forall|k: int| 0 <= k < items@.len() ==> text_chars((#[trigger] items@[k])@).len() <= u32::MAX,
        ensures
            final(matcher).config == with_case(old(matcher).config, final(matcher).config.ignore_case),
            forall|a: int, b: int|
                0 <= a < b < r@.len() ==> ranked_before(#[trigger] r@[a], #[trigger] r@[b]),
            forall|t: int|
                0 <= t < r@.len() ==> (#[trigger] r@[t]).0 < items@.len() && pattern_total(
                    old(matcher).config,
                    self.atom_views(),
                    text_chars(items@[r@[t].0 as int]@),
                    r@[t].1,
                ),
            forall|k: int|
                0 <= k < items@.len() ==> ((exists|t: int| 0 <= t < r@.len() && #[trigger] r@[t].0
                    == k) <==> text_passes(old(matcher).config, self.atom_views(), (#[trigger] items@[k])@)),
    {
        let ghost cfg = matcher.config;
        let mut out: Vec<(usize, u32)> = Vec::new();
        let mut i: usize = 0;
        while i < items.len()
            invariant
                self.wf(),
                i <= items@.len(),
                cfg == old(matcher).config,
                cfg.wf(),
                matcher.config == with_case(cfg, matcher.config.ignore_case),
                forall|k: int| 0 <= k < items@.len() ==> text_chars((#[trigger] items@[k])@).len() <= u32::MAX,
                forall|a: int, b: int|
                    0 <= a < b < out@.len() ==> ranked_before(#[trigger] out@[a], #[trigger] out@[b]),
                forall|t: int|
                    0 <= t < out@.len() ==> (#[trigger] out@[t]).0 < i && pattern_total(
                        cfg,
                        self.atom_views(),
                        text_chars(items@[out@[t].0 as int]@),
                        out@[t].1,
                    ),
                forall|k: int|
                    0 <= k < i ==> ((exists|t: int| 0 <= t < out@.len() && #[trigger] out@[t].0 == k)
                        <==> text_passes(cfg, self.atom_views(), (#[trigger] items@[k])@)),
            decreases items@.len() - i,
        {
            let mut buf: Vec<char> = Vec::new();
            let text = items[i];
            let h = Utf32Str::new(text, &mut buf);
            let ghost before = matcher.config;
            let res = self.score(h, matcher);
            proof {
                assert(matcher.config == with_case(cfg, matcher.config.ignore_case));
                assert forall|k: int| 0 <= k < self.atoms@.len() implies atom_passes(
                    before,
                    #[trigger] self.atoms@[k]@,
                    h.spec_is_ascii(),
                    h@,
                ) == atom_passes(cfg, self.atoms@[k]@, h.spec_is_ascii(), h@) by {
                    assert(with_case(before, self.atoms@[k]@.ignore_case) == with_case(
                        cfg,
                        self.atoms@[k]@.ignore_case,
                    ));
                }
                assert(text_passes(cfg, self.atom_views(), text@) == forall|k: int|
                    0 <= k < self.atoms@.len() ==> atom_passes(
                        cfg,
                        #[trigger] self.atoms@[k]@,
                        h.spec_is_ascii(),
                        h@,
                    )) by {
                    assert forall|k: int| 0 <= k < self.atoms@.len() implies self.atom_views()[k]
                        == #[trigger] self.atoms@[k]@ by {}
                }
            }
            match res {
                Some(s) => {
                    proof {
                        lemma_pattern_total_case(cfg, before.ignore_case, self.atom_views(), h@, s);
                    }
                    let mut pos: usize = 0;
                    while pos < out.len() && out[pos].1 >= s
                        invariant
                            pos <= out@.len(),
                            forall|t: int| 0 <= t < pos ==> (#[trigger] out@[t]).1 >= s,
                        decreases out@.len() - pos,
                    {
                        pos += 1;
                    }
                    let ghost old_out = out@;
                    assert(pos == out@.len() || out@[pos as int].1 < s);
                    assert forall|t: int| pos <= t < old_out.len() implies (#[trigger] old_out[t]).1 < s by {
                        if t > pos {
                            assert(ranked_before(old_out[pos as int], old_out[t]));
                        }
                    }
                    out.insert(pos, (i, s));
                    proof {
                        assert forall|t: int| 0 <= t < out@.len() implies #[trigger] out@[t] == if t
                            < pos {
                            old_out[t]
                        } else if t == pos {
                            (i, s)
                        } else {
                            old_out[t - 1]
                        } by {}
                        assert forall|a: int, b: int|
                            0 <= a < b < out@.len() implies ranked_before(#[trigger] out@[a], #[trigger] out@[b]) by {
                            if b < pos {
                            } else if a < pos && b == pos {
                            } else if a < pos && b > pos {
                                assert(ranked_before(old_out[a], old_out[b - 1]));
                            } else if a == pos {
                            } else {
                                assert(ranked_before(old_out[a - 1], old_out[b - 1]));
                            }
                        }
                        assert forall|k: int| 0 <= k < i + 1 implies ((exists|t: int|
                            0 <= t < out@.len() && #[trigger] out@[t].0 == k) <==> text_passes(
                            cfg,
                            self.atom_views(),
                            (#[trigger] items@[k])@,
                        )) by {
                            if k < i {
                                if exists|t: int| 0 <= t < old_out.len() && #[trigger] old_out[t].0 == k {
                                    let t = choose|t: int| 0 <= t < old_out.len() && #[trigger] old_out[t].0 == k;
                                    if t < pos {
                                        assert(out@[t].0 == k);
                                    } else {
                                        assert(out@[t + 1].0 == k);
                                    }
                                }
                                if exists|t: int| 0 <= t < out@.len() && #[trigger] out@[t].0 == k {
                                    let t = choose|t: int| 0 <= t < out@.len() && #[trigger] out@[t].0 == k;
                                    if t < pos {
                                        assert(old_out[t].0 == k);
                                    } else if t > pos {
                                        assert(old_out[t - 1].0 == k);
                                    }
                                }
                            } else {
                                assert(out@[pos as int].0 == k);
                            }
                        }
                    }
                },
                None => {
                    proof {
                        assert forall|t: int| 0 <= t < out@.len() implies (#[trigger] out@[t]).0 != i by {}
                    }
                },
            }
            i += 1;
        }
        out
    }

    /// Like `score`, and appends each positive atom's matched positions to
    /// `indices`.
    pub fn indices(&self, haystack: Utf32Str, matcher: &mut Matcher, indices: &mut Vec<u32>) -> (r:
        Option<u32>)
        requires
            self.wf(),
            old(matcher).config.wf(),
            haystack.wf(),
            haystack@.len() <= u32::MAX,
        ensures
            final(matcher).config == with_case(old(matcher).config, final(matcher).config.ignore_case),
            r is Some <==> forall|k: int|
                0 <= k < self.atoms@.len() ==> atom_passes(
                    old(matcher).config,
                    #[trigger] self.atoms@[k]@,
                    haystack.spec_is_ascii(), haystack@,
                ),
            self.atoms@.len() == 0 ==> r == Some(0u32),
            old(indices)@.len() <= final(indices)@.len(),
            final(indices)@.subrange(0, old(indices)@.len() as int) == old(indices)@,
            forall|k: int|
                old(indices)@.len() <= k < final(indices)@.len() ==> (#[trigger] final(indices)@[k]
                    as int) < haystack@.len(),
            r is Some ==> exists|scores: Seq<u16>|
                scores.len() == self.atoms@.len() && (forall|k: int|
                    0 <= k < scores.len() ==> atom_score(
                        old(matcher).config,
                        #[trigger] self.atoms@[k]@,
                        haystack@,
                        scores[k],
                    )) && r->0 == total_score(scores),
    {
        let ghost cfg = matcher.config;
        let ghost start_indices = indices@;
        let ghost scores: Seq<u16> = Seq::empty();
        let mut total: u32 = 0;
        let mut k: usize = 0;
        while k < self.atoms.len()
            invariant
                self.wf(),
                k <= self.atoms@.len(),
                matcher.config == with_case(cfg, matcher.config.ignore_case),
                cfg == old(matcher).config,
                cfg.wf(),
                haystack.wf(),
                haystack@.len() <= u32::MAX,
                self.atoms@.len() == 0 ==> total == 0,
                forall|q: int|
                    0 <= q < k ==> atom_passes(cfg, #[trigger] self.atoms@[q]@, haystack.spec_is_ascii(), haystack@),
                scores.len() == k,
                forall|q: int|
                    0 <= q < k ==> atom_score(cfg, #[trigger] self.atoms@[q]@, haystack@, scores[q]),
                total == total_score(scores),
                start_indices == old(indices)@,
                start_indices.len() <= indices@.len(),
                indices@.subrange(0, start_indices.len() as int) == start_indices,
                forall|q: int|
                    start_indices.len() <= q < indices@.len() ==> (#[trigger] indices@[q] as int)
                        < haystack@.len(),
            decreases self.atoms@.len() - k,
        {
            let atom = &self.atoms[k];
            let ghost before = matcher.config;
            let ghost prev = indices@;
            let res = atom.indices(haystack, matcher, indices);
            proof {
                if !atom@.negative && res is Some {
                    let new = choose|new: Seq<u32>|
                        indices@ == prev + new && valid_indices(
                            norm_seq(matcher.config, haystack@),
                            norm_seq(matcher.config, atom@.needle),
                            new,
                        );
                    assert forall|q: int|
                        start_indices.len() <= q < indices@.len() implies (#[trigger] indices@[q]
                        as int) < haystack@.len() by {
                        if q >= prev.len() {
                            assert(indices@[q] == new[q - prev.len()]);
                        } else {
                            assert(indices@[q] == prev[q]);
                        }
                    }
                    assert(indices@.subrange(0, start_indices.len() as int) =~= prev.subrange(
                        0,
                        start_indices.len() as int,
                    ));
                }
            }
            proof {
                assert(with_case(before, atom@.ignore_case) == with_case(cfg, atom@.ignore_case));
                assert(matcher.config == with_case(cfg, matcher.config.ignore_case));
            }
            match res {
                Some(s) => {
                    proof {
                        let old_scores = scores;
                        scores = scores.push(s);
                        assert(scores.drop_last() == old_scores);
                        assert forall|q: int| 0 <= q < k + 1 implies atom_score(
                            cfg,
                            #[trigger] self.atoms@[q]@,
                            haystack@,
                            scores[q],
                        ) by {
                            if q < k {
                                assert(scores[q] == old_scores[q]);
                            }
                        }
                    }
                    total = total.saturating_add(s as u32);
                },
                None => {
                    assert(!atom_passes(cfg, self.atoms@[k as int]@, haystack.spec_is_ascii(), haystack@));
                    return None;
                },
            }
            k += 1;
        }
        Some(total)
    }
}

} // verus!
