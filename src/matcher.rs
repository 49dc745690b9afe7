//! The matcher: fuzzy, greedy, substring, prefix, postfix and exact matching
//! of a needle against a haystack.
use vstd::prelude::*;

use crate::config::{MatcherConfig, BONUS_BOUNDARY, BONUS_FIRST_CHAR_MULTIPLIER, SCORE_MATCH};
use crate::score::{
    bonus_seq, bonuses, calculate_score, idx_u32, lemma_run_completes,
    lemma_run_exact, lemma_run_positions, lemma_run_valid, norm_seq, normalize_all, prefix_bonus,
    prefix_bonus_for, run_to, small_bonuses, valid_indices, window_score,
};
use crate::search::{
    absent_from, chars_of, embeds_from, find_ascii, find_char, first_from, fuzzy_matches,
    lemma_embeds_absent, lemma_embeds_equal_len, lemma_embeds_len, lemma_embeds_skip,
};
use crate::utf32_str::{all_ascii_chars, occurs_at, Utf32Str};

verus! {

/// Score of a single-character match at `i`.
pub open spec fn single_score(prefer: bool, bs: Seq<u16>, i: int) -> u16 {
    (SCORE_MATCH + BONUS_FIRST_CHAR_MULTIPLIER * bs[i] + prefix_bonus(prefer, i)) as u16
}

/// A needle with a non-ASCII character never matches an ASCII haystack.
pub open spec fn ascii_mismatch(h_ascii: bool, n: Seq<char>) -> bool {
    h_ascii && !vstd::utf8::is_ascii_chars(n)
}

/// Whether a fuzzy match of `n` in `h` exists under `cfg`.
pub open spec fn fuzzy_some(cfg: MatcherConfig, h: Seq<char>, n: Seq<char>) -> bool {
    n.len() > 0 && fuzzy_matches(norm_seq(cfg, h), norm_seq(cfg, n))
}

/// Whether `n` spells the window `start..end` of `h` under `cfg`.
pub open spec fn window_some(
    cfg: MatcherConfig,
    h: Seq<char>,
    n: Seq<char>,
    start: int,
    end: int,
) -> bool {
    &&& n.len() > 0
    &&& n.len() == end - start
    &&& norm_seq(cfg, h).subrange(start, end) == norm_seq(cfg, n)
}

/// Score of the match of `n` on the window `start..end` of `h`.
pub open spec fn window_match_score(
    cfg: MatcherConfig,
    h: Seq<char>,
    n: Seq<char>,
    start: int,
    end: int,
) -> u16 {
    window_score(cfg.prefer_prefix, norm_seq(cfg, h), bonus_seq(cfg, h), norm_seq(cfg, n), start, end)
}

/// Whether `n` is a prefix of `h` under `cfg`.
pub open spec fn prefix_some(cfg: MatcherConfig, h: Seq<char>, n: Seq<char>) -> bool {
    n.len() <= h.len() && window_some(cfg, h, n, 0, n.len() as int)
}

/// Whether `n` is a postfix of `h` under `cfg`.
pub open spec fn postfix_some(cfg: MatcherConfig, h: Seq<char>, n: Seq<char>) -> bool {
    n.len() <= h.len() && window_some(cfg, h, n, h.len() - n.len(), h.len() as int)
}

/// Whether `n` equals `h` under `cfg`.
pub open spec fn exact_some(cfg: MatcherConfig, h: Seq<char>, n: Seq<char>) -> bool {
    window_some(cfg, h, n, 0, h.len() as int)
}

/// Whether `n` occurs without gaps in `h` under `cfg`.
pub open spec fn substring_some(cfg: MatcherConfig, h: Seq<char>, n: Seq<char>) -> bool {
    n.len() > 0 && exists|i: int| occurs_at(norm_seq(cfg, h), norm_seq(cfg, n), i)
}

/// Where the leftmost greedy match of `ns[j..]` from `i` on ends.
pub open spec fn greedy_end(hs: Seq<char>, ns: Seq<char>, i: int, j: int) -> int
    decreases hs.len() - i,
{
    if j >= ns.len() || i >= hs.len() {
        i
    } else if hs[i] == ns[j] {
        greedy_end(hs, ns, i + 1, j + 1)
    } else {
        greedy_end(hs, ns, i + 1, j)
    }
}

/// Where matching `ns[..k]` backwards from `i` (exclusive) down to `lo`
/// places the first needle character; `lo` when it does not get there.
pub open spec fn back_start(hs: Seq<char>, ns: Seq<char>, lo: int, i: int, k: int) -> int
    decreases i - lo,
{
    if k <= 0 || i <= lo {
        lo
    } else if hs[i - 1] == ns[k - 1] {
        if k == 1 {
            i - 1
        } else {
            back_start(hs, ns, lo, i - 1, k - 1)
        }
    } else {
        back_start(hs, ns, lo, i - 1, k)
    }
}

/// The greedy score: the run from where the backward pass placed the first
/// needle character, or from `start` when that run does not match the whole
/// needle.
pub open spec fn greedy_score(
    prefer: bool,
    hs: Seq<char>,
    bs: Seq<u16>,
    ns: Seq<char>,
    start: int,
) -> u16 {
    let p = back_start(hs, ns, start, greedy_end(hs, ns, start + 1, 1), ns.len() as int);
    if run_to(hs, bs, ns, p, hs.len() as int).j == ns.len() {
        window_score(prefer, hs, bs, ns, p, hs.len() as int)
    } else {
        window_score(prefer, hs, bs, ns, start, hs.len() as int)
    }
}

/// The positions of the greedy match: those of the run that `greedy_score`
/// scores.
pub open spec fn greedy_positions(hs: Seq<char>, bs: Seq<u16>, ns: Seq<char>, start: int) -> Seq<
    u32,
> {
    let p = back_start(hs, ns, start, greedy_end(hs, ns, start + 1, 1), ns.len() as int);
    if run_to(hs, bs, ns, p, hs.len() as int).j == ns.len() {
        idx_u32(run_to(hs, bs, ns, p, hs.len() as int).idx)
    } else {
        idx_u32(run_to(hs, bs, ns, start, hs.len() as int).idx)
    }
}

/// The positions of the greedy match of `n` in `h` whose first character
/// first occurs at `start`.
pub open spec fn greedy_match_positions(cfg: MatcherConfig, h: Seq<char>, n: Seq<char>, start: int) -> Seq<u32> {
    greedy_positions(norm_seq(cfg, h), bonus_seq(cfg, h), norm_seq(cfg, n), start)
}

/// The greedy score of `n` in `h` whose first character first occurs at
/// `start`.
pub open spec fn greedy_match_score(cfg: MatcherConfig, h: Seq<char>, n: Seq<char>, start: int) -> u16 {
    greedy_score(cfg.prefer_prefix, norm_seq(cfg, h), bonus_seq(cfg, h), norm_seq(cfg, n), start)
}

/// Whether the dynamic program scores a fuzzy match: the needle has at
/// least two characters and fewer than the haystack, its first character
/// first occurs at `start`, `offs` are the row starts, and the matrix fits.
pub open spec fn optimal_applies(
    cfg: MatcherConfig,
    h: Seq<char>,
    n: Seq<char>,
    start: int,
    offs: Seq<usize>,
) -> bool {
    let hs = norm_seq(cfg, h);
    let ns = norm_seq(cfg, n);
    &&& 2 <= n.len() < h.len()
    &&& first_from(hs, ns[0], 0, start)
    &&& crate::optimal::fits(h.len() - start, n.len() as int)
    &&& crate::optimal::first_offsets(hs, ns, start, offs)
}

/// The score of the dynamic program (see `optimal_applies`).
pub open spec fn fuzzy_optimal_score(
    cfg: MatcherConfig,
    h: Seq<char>,
    n: Seq<char>,
    start: int,
    offs: Seq<usize>,
) -> u16 {
    crate::optimal::optimal_score(
        cfg.prefer_prefix,
        norm_seq(cfg, h),
        bonus_seq(cfg, h),
        norm_seq(cfg, n),
        start,
        offs,
    )
}

/// The positions `fuzzy_indices` reports when the dynamic program applies:
/// the walk back through the matrix, or the greedy positions when that walk
/// does not reach the first needle character.
pub open spec fn fuzzy_optimal_positions(
    cfg: MatcherConfig,
    h: Seq<char>,
    n: Seq<char>,
    start: int,
    offs: Seq<usize>,
) -> Seq<u32> {
    let path = crate::optimal::optimal_path(
        cfg.prefer_prefix,
        norm_seq(cfg, h),
        bonus_seq(cfg, h),
        norm_seq(cfg, n),
        start,
        offs,
    );
    if path.len() > 0 {
        path
    } else {
        greedy_match_positions(cfg, h, n, start)
    }
}

/// `p` is the first position holding the (single) needle character with
/// the highest single-character score.
pub open spec fn best_single(cfg: MatcherConfig, h: Seq<char>, n: Seq<char>, p: int) -> bool {
    let hs = norm_seq(cfg, h);
    let ns = norm_seq(cfg, n);
    let bs = bonus_seq(cfg, h);
    &&& 0 <= p < hs.len()
    &&& hs[p] == ns[0]
    &&& forall|q: int|
        0 <= q < hs.len() && hs[q] == ns[0] ==> single_score(cfg.prefer_prefix, bs, q)
            <= single_score(cfg.prefer_prefix, bs, p)
    &&& forall|q: int|
        0 <= q < p && hs[q] == ns[0] ==> single_score(cfg.prefer_prefix, bs, q) < single_score(
            cfg.prefer_prefix,
            bs,
            p,
        )
}

/// The positions `start..end`.
pub open spec fn span(start: int, end: int) -> Seq<u32> {
    Seq::new((end - start) as nat, |k: int| (start + k) as u32)
}

/// A matcher with its configuration.
#[derive(Clone, Debug)]
pub struct Matcher {
    pub config: MatcherConfig,
}

impl Matcher {
    /// A matcher with the given configuration.
    pub fn new(config: MatcherConfig) -> (r: Matcher)
        ensures
            r.config == config,
    {
        Matcher { config }
    }

    /// First position at or after `from` whose compared character is `c`;
    /// ASCII haystacks are searched bytewise.
    fn find(&self, h: Utf32Str, hs: &Vec<char>, c: char, from: usize) -> (r: Option<usize>)
        requires
            h.wf(),
            hs@ == norm_seq(self.config, h@),
            from <= hs@.len(),
        ensures
            r is Some ==> first_from(hs@, c, from as int, r->0 as int),
            r is None ==> absent_from(hs@, c, from as int),
    {
        match h {
            Utf32Str::Ascii(b) => {
                let normalize = self.config.normalize;
                let ignore_case = self.config.ignore_case;
                assert(hs@ =~= crate::utf32_str::bytes_chars(b@).map_values(
                    |x: char| crate::chars::norm_char(x, normalize, ignore_case),
                ));
                find_ascii(b, hs, c, from, normalize, ignore_case)
            },
            Utf32Str::Unicode(_) => find_char(hs, c, from),
        }
    }

    /// Finds the first position of the first needle character and checks
    /// that the rest of the needle follows it.
    fn prefilter(&self, h: Utf32Str, hs: &Vec<char>, ns: &Vec<char>) -> (r: Option<usize>)
        requires
            h.wf(),
            hs@ == norm_seq(self.config, h@),
            hs@.len() <= u32::MAX,
            ns@.len() >= 1,
        ensures
            r is Some <==> fuzzy_matches(hs@, ns@),
            r is Some ==> first_from(hs@, ns@[0], 0, r->0 as int) && embeds_from(
                hs@,
                ns@,
                r->0 + 1,
                1,
            ),
    {
        let start = match self.find(h, hs, ns[0], 0) {
            Some(p) => p,
            None => {
                proof {
                    lemma_embeds_absent(hs@, ns@, 0, 0);
                }
                return None;
            },
        };
        proof {
            lemma_embeds_skip(hs@, ns@, 0, 0, start as int);
        }
        let mut cursor = start + 1;
        let mut j: usize = 1;
        while j < ns.len()
            invariant
                h.wf(),
                hs@ == norm_seq(self.config, h@),
                hs@.len() <= u32::MAX,
                first_from(hs@, ns@[0], 0, start as int),
                cursor <= hs@.len(),
                1 <= j <= ns@.len(),
                fuzzy_matches(hs@, ns@) == embeds_from(hs@, ns@, start + 1, 1),
                embeds_from(hs@, ns@, start + 1, 1) == embeds_from(hs@, ns@, cursor as int, j as int),
            decreases ns@.len() - j,
        {
            match self.find(h, hs, ns[j], cursor) {
                Some(p) => {
                    proof {
                        lemma_embeds_skip(hs@, ns@, cursor as int, j as int, p as int);
                    }
                    cursor = p + 1;
                    j += 1;
                },
                None => {
                    proof {
                        lemma_embeds_absent(hs@, ns@, cursor as int, j as int);
                    }
                    return None;
                },
            }
        }
        Some(start)
    }

    /// The best single-character match from `start` on: the first position
    /// with the highest score.
    fn match_single(&self, hs: &Vec<char>, bs: &Vec<u16>, c: char, start: usize) -> (r: (
        u16,
        usize,
    ))
        requires
            self.config.wf(),
            hs@.len() == bs@.len(),
            small_bonuses(bs@),
            bs@.len() <= u32::MAX,
            first_from(hs@, c, 0, start as int),
            forall|q: int|
                0 <= q < bs@.len() ==> #[trigger] bs@[q] <= self.config.bonus_boundary_white
                    || bs@[q] <= self.config.bonus_boundary_delimiter || bs@[q] <= BONUS_BOUNDARY,
        ensures
            r.1 < hs@.len(),
            hs@[r.1 as int] == c,
            r.0 == single_score(self.config.prefer_prefix, bs@, r.1 as int),
            forall|q: int|
                0 <= q < hs@.len() && hs@[q] == c ==> single_score(
                    self.config.prefer_prefix,
                    bs@,
                    q,
                ) <= r.0,
            forall|q: int|
                0 <= q < r.1 && hs@[q] == c ==> single_score(self.config.prefer_prefix, bs@, q)
                    < r.0,
    {
        let prefer = self.config.prefer_prefix;
        let white = self.config.bonus_boundary_white;
        let delim = self.config.bonus_boundary_delimiter;
        let mut best: u16 = SCORE_MATCH + BONUS_FIRST_CHAR_MULTIPLIER * bs[start]
            + prefix_bonus_for(prefer, start);
        let mut pos = start;
        let mut i = start + 1;
        if bs[start] >= white && bs[start] >= delim && bs[start] >= BONUS_BOUNDARY {
            proof {
                assert forall|q: int| 0 <= q < hs@.len() && hs@[q] == c implies single_score(
                    prefer,
                    bs@,
                    q,
                ) <= best by {
                    assert(bs@[q] <= bs@[start as int]);
                }
            }
            return (best, pos);
        }
        while i < hs.len()
            invariant
                start < i <= hs@.len(),
                prefer == self.config.prefer_prefix,
                hs@.len() == bs@.len(),
                bs@.len() <= u32::MAX,
                small_bonuses(bs@),
                forall|q: int|
                    0 <= q < bs@.len() ==> #[trigger] bs@[q] <= white || bs@[q] <= delim || bs@[q]
                        <= BONUS_BOUNDARY,
                first_from(hs@, c, 0, start as int),
                start <= pos < i,
                hs@[pos as int] == c,
                best == single_score(prefer, bs@, pos as int),
                forall|q: int| 0 <= q < i && hs@[q] == c ==> single_score(prefer, bs@, q) <= best,
                forall|q: int| 0 <= q < pos && hs@[q] == c ==> single_score(prefer, bs@, q) < best,
            decreases hs@.len() - i,
        {
            if hs[i] == c {
                let b = bs[i];
                let score = SCORE_MATCH + BONUS_FIRST_CHAR_MULTIPLIER * b + prefix_bonus_for(
                    prefer,
                    i,
                );
                if score > best {
                    best = score;
                    pos = i;
                    if b >= white && b >= delim && b >= BONUS_BOUNDARY {
                        proof {
                            assert forall|q: int| 0 <= q < hs@.len() && hs@[q] == c implies single_score(
                                prefer,
                                bs@,
                                q,
                            ) <= best by {
                                if q > i {
                                    assert(bs@[q] <= b);
                                }
                            }
                        }
                        return (best, pos);
                    }
                }
            }
            i += 1;
        }
        (best, pos)
    }

    /// The compared haystack characters, their bonuses, and the compared
    /// needle characters.
    fn prepare(&self, h: Utf32Str, n: Utf32Str) -> (r: (Vec<char>, Vec<u16>, Vec<char>))
        requires
            self.config.wf(),
        ensures
            r.0@ == norm_seq(self.config, h@),
            r.1@ == bonus_seq(self.config, h@),
            small_bonuses(r.1@),
            r.2@ == norm_seq(self.config, n@),
            forall|q: int|
                0 <= q < r.1@.len() ==> #[trigger] r.1@[q] <= self.config.bonus_boundary_white
                    || r.1@[q] <= self.config.bonus_boundary_delimiter || r.1@[q]
                    <= BONUS_BOUNDARY,
    {
        let raw = chars_of(h);
        let hs = normalize_all(&self.config, &raw);
        let bs = bonuses(&self.config, &raw);
        let nraw = chars_of(n);
        let ns = normalize_all(&self.config, &nraw);
        (hs, bs, ns)
    }

    /// Matches `n` against the window `start..end` of `h`, character by
    /// character.
    fn exact_match_impl(
        &self,
        h: Utf32Str,
        n: Utf32Str,
        start: usize,
        end: usize,
        with_indices: bool,
        indices: &mut Vec<u32>,
    ) -> (r: Option<u16>)
        requires
            self.config.wf(),
            start <= end <= h@.len(),
            h@.len() <= u32::MAX,
        ensures
            r is Some <==> (!ascii_mismatch(h.spec_is_ascii(), n@) && window_some(self.config, h@, n@, start as int, end as int)),
            r is Some ==> r->0 == window_match_score(
                self.config,
                h@,
                n@,
                start as int,
                end as int,
            ),
            (r is Some && with_indices) ==> final(indices)@ == old(indices)@ + span(
                start as int,
                end as int,
            ),
            !(r is Some && with_indices) ==> final(indices)@ == old(indices)@,
    {
        let m = n.len();
        if m != end - start || m == 0 {
            return None;
        }
        if h.is_ascii() && !all_ascii_chars(n) {
            return None;
        }
        let (hs, bs, ns) = self.prepare(h, n);
        let mut k: usize = 0;
        while k < m
            invariant
                m == ns@.len(),
                m == end - start,
                end <= hs@.len(),
                hs@ == norm_seq(self.config, h@),
                ns@ == norm_seq(self.config, n@),
                k <= m,
                forall|q: int| 0 <= q < k ==> hs@[start + q] == ns@[q],
            decreases m - k,
        {
            if hs[start + k] != ns[k] {
                proof {
                    assert(hs@.subrange(start as int, end as int)[k as int] != ns@[k as int]);
                }
                return None;
            }
            k += 1;
        }
        proof {
            assert(hs@.subrange(start as int, end as int) =~= ns@);
            lemma_run_exact(hs@, bs@, ns@, start as int, end as int);
            assert(idx_u32(run_to(hs@, bs@, ns@, start as int, end as int).idx) =~= span(
                start as int,
                end as int,
            ));
        }
        let score = calculate_score(
            self.config.prefer_prefix,
            &hs,
            &bs,
            &ns,
            start,
            end,
            with_indices,
            indices,
        );
        Some(score)
    }

    /// Whether `ns` occurs in `hs` at `i`.
    fn occurs(hs: &Vec<char>, ns: &Vec<char>, i: usize) -> (r: bool)
        requires
            i + ns@.len() <= hs@.len(),
        ensures
            r == occurs_at(hs@, ns@, i as int),
    {
        let m = ns.len();
        let total = hs.len();
        let mut k: usize = 0;
        while k < m
            invariant
                m == ns@.len(),
                total == hs@.len(),
                i + m <= hs@.len(),
                k <= m,
                forall|q: int| 0 <= q < k ==> hs@[i + q] == ns@[q],
            decreases m - k,
        {
            if hs[i + k] != ns[k] {
                proof {
                    assert(hs@.subrange(i as int, i + m)[k as int] != ns@[k as int]);
                }
                return false;
            }
            k += 1;
        }
        assert(hs@.subrange(i as int, i + m) =~= ns@);
        true
    }

    /// The best contiguous occurrence of `n` in `h`: the first occurrence
    /// with the highest score.
    fn substring_match_impl(
        &self,
        h: Utf32Str,
        n: Utf32Str,
        with_indices: bool,
        indices: &mut Vec<u32>,
    ) -> (r: Option<u16>)
        requires
            self.config.wf(),
            h@.len() <= u32::MAX,
        ensures
            r is Some <==> (!ascii_mismatch(h.spec_is_ascii(), n@) && substring_some(self.config, h@, n@)),
            r is Some ==> exists|p: int|
                best_occurrence(self.config, h@, n@, p) && r->0 == window_match_score(
                    self.config,
                    h@,
                    n@,
                    p,
                    p + n@.len(),
                ) && (with_indices ==> final(indices)@ == old(indices)@ + span(
                    p,
                    p + n@.len(),
                )),
            !(r is Some && with_indices) ==> final(indices)@ == old(indices)@,
    {
        if h.is_ascii() && !all_ascii_chars(n) {
            return None;
        }
        let m = n.len();
        let len = h.len();
        if m == 0 || m > len {
            proof {
                if m > len {
                    assert forall|i: int| !occurs_at(norm_seq(self.config, h@), norm_seq(self.config, n@), i) by {}
                }
            }
            return None;
        }
        let (hs, bs, ns) = self.prepare(h, n);
        let ghost cfg = self.config;
        let mut found = false;
        let mut best: u16 = 0;
        let mut pos: usize = 0;
        let mut i: usize = 0;
        let mut scratch: Vec<u32> = Vec::new();
        while i <= len - m
            invariant
                m == ns@.len(),
                len == hs@.len(),
                len == h@.len(),
                1 <= m <= len,
                len <= u32::MAX,
                hs@ == norm_seq(cfg, h@),
                bs@ == bonus_seq(cfg, h@),
                ns@ == norm_seq(cfg, n@),
                small_bonuses(bs@),
                cfg == self.config,
                i <= len - m + 1,
                found ==> pos < i && occurs_at(hs@, ns@, pos as int) && best
                    == window_match_score(cfg, h@, n@, pos as int, pos + m),
                found ==> forall|q: int|
                    0 <= q < i && occurs_at(hs@, ns@, q) ==> window_match_score(
                        cfg,
                        h@,
                        n@,
                        q,
                        q + m,
                    ) <= best,
                found ==> forall|q: int|
                    0 <= q < pos && occurs_at(hs@, ns@, q) ==> window_match_score(
                        cfg,
                        h@,
                        n@,
                        q,
                        q + m,
                    ) < best,
                !found ==> forall|q: int| 0 <= q < i ==> !occurs_at(hs@, ns@, q),
            decreases len - i,
        {
            if Self::occurs(&hs, &ns, i) {
                assert(hs@[i as int] == ns@[0]) by {
                    assert(hs@.subrange(i as int, i + m)[0] == ns@[0]);
                }
                let score = calculate_score(
                    self.config.prefer_prefix,
                    &hs,
                    &bs,
                    &ns,
                    i,
                    i + m,
                    false,
                    &mut scratch,
                );
                if !found || score > best {
                    found = true;
                    best = score;
                    pos = i;
                }
            }
            i += 1;
        }
        if !found {
            proof {
                assert forall|q: int| !occurs_at(hs@, ns@, q) by {
                    if 0 <= q && q + m <= len {
                        assert(q < i);
                    }
                }
            }
            return None;
        }
        proof {
            assert(hs@.subrange(pos as int, pos + m) =~= ns@);
            lemma_run_exact(hs@, bs@, ns@, pos as int, pos + m);
            assert(idx_u32(run_to(hs@, bs@, ns@, pos as int, pos + m).idx) =~= span(
                pos as int,
                pos + m,
            ));
            assert forall|q: int| occurs_at(hs@, ns@, q) implies window_match_score(
                cfg,
                h@,
                n@,
                q,
                q + m,
            ) <= best by {
                assert(q < i);
            }
        }
        if with_indices {
            calculate_score(
                self.config.prefer_prefix,
                &hs,
                &bs,
                &ns,
                pos,
                pos + m,
                true,
                indices,
            );
        }
        proof {
            assert(best_occurrence(cfg, h@, n@, pos as int));
        }
        Some(best)
    }

    /// The greedy run from the first needle character at `start`, shortened
    /// from the back: the first needle character is matched as late as the
    /// forward greedy match allows. Returns the score and positions.
    fn greedy_from(&self, hs: &Vec<char>, bs: &Vec<u16>, ns: &Vec<char>, start: usize) -> (r: (
        u16,
        Vec<u32>,
    ))
        requires
            hs@.len() == bs@.len(),
            hs@.len() <= u32::MAX,
            small_bonuses(bs@),
            ns@.len() >= 1,
            first_from(hs@, ns@[0], 0, start as int),
            embeds_from(hs@, ns@, start + 1, 1),
        ensures
            valid_indices(hs@, ns@, r.1@),
            r.0 == greedy_score(self.config.prefer_prefix, hs@, bs@, ns@, start as int),
            r.1@ == greedy_positions(hs@, bs@, ns@, start as int),
    {
        let len = hs.len();
        let m = ns.len();
        // the end of the forward greedy match
        let mut end = start + 1;
        let mut j: usize = 1;
        while j < m && end < len
            invariant
                start < end <= len,
                len == hs@.len(),
                1 <= j <= m,
                m == ns@.len(),
                greedy_end(hs@, ns@, start + 1, 1) == greedy_end(hs@, ns@, end as int, j as int),
            decreases len - end,
        {
            if hs[end] == ns[j] {
                j += 1;
            }
            end += 1;
        }
        // match the needle backwards from there
        let mut p = start;
        let mut k: usize = m;
        let mut i = end;
        let ghost lo = start as int;
        while i > start && k > 0
            invariant
                start <= i <= end <= len,
                len == hs@.len(),
                m == ns@.len(),
                k <= m,
                hs@[p as int] == ns@[0],
                p < len,
                end == greedy_end(hs@, ns@, start + 1, 1),
                lo == start as int,
                k == 0 ==> back_start(hs@, ns@, lo, end as int, m as int) == p,
                k > 0 ==> back_start(hs@, ns@, lo, end as int, m as int) == back_start(
                    hs@,
                    ns@,
                    lo,
                    i as int,
                    k as int,
                ),
                k > 0 ==> p == start,
            decreases i,
        {
            let ghost i_old = i as int;
            let ghost k_old = k as int;
            i -= 1;
            if hs[i] == ns[k - 1] {
                k -= 1;
                if k == 0 {
                    p = i;
                }
            }
            assert(i_old > lo);
            assert(k_old > 0);
            assert(i as int == i_old - 1);
            assert(back_start(hs@, ns@, lo, i_old, k_old) == if hs@[i as int] == ns@[k_old - 1]
                && k_old == 1 {
                i as int
            } else if hs@[i as int] == ns@[k_old - 1] {
                back_start(hs@, ns@, lo, i as int, k_old - 1)
            } else {
                back_start(hs@, ns@, lo, i as int, k_old)
            });
        }
        assert(back_start(hs@, ns@, lo, end as int, m as int) == p);
        let mut idx: Vec<u32> = Vec::new();
        let score = calculate_score(self.config.prefer_prefix, hs, bs, ns, p, len, true, &mut idx);
        if idx.len() == m {
            proof {
                lemma_run_positions(hs@, bs@, ns@, p as int, len as int);
                lemma_run_valid(hs@, bs@, ns@, p as int, len as int);
            }
            assert(idx@ =~= idx_u32(run_to(hs@, bs@, ns@, p as int, len as int).idx));
            return (score, idx);
        }
        let mut idx2: Vec<u32> = Vec::new();
        let score2 = calculate_score(
            self.config.prefer_prefix,
            hs,
            bs,
            ns,
            start,
            len,
            true,
            &mut idx2,
        );
        proof {
            lemma_run_positions(hs@, bs@, ns@, p as int, len as int);
            lemma_run_completes(hs@, bs@, ns@, start as int);
            lemma_run_valid(hs@, bs@, ns@, start as int, len as int);
        }
        assert(idx2@ =~= idx_u32(run_to(hs@, bs@, ns@, start as int, len as int).idx));
        (score2, idx2)
    }

    /// Handles needles that are empty, longer than, or as long as the
    /// haystack: `None` when the needle is empty or longer, the exact match
    /// when the lengths agree.
    fn match_by_length(
        &self,
        h: Utf32Str,
        n: Utf32Str,
        with_indices: bool,
        indices: &mut Vec<u32>,
    ) -> (r: Option<Option<u16>>)
        requires
            self.config.wf(),
            !ascii_mismatch(h.spec_is_ascii(), n@),
            h@.len() <= u32::MAX,
        ensures
            r is None <==> (n@.len() > 0 && n@.len() < h@.len()),
            r matches Some(res) ==> (res is Some <==> fuzzy_some(self.config, h@, n@)),
            r matches Some(res) ==> (res is Some ==> res->0 == window_match_score(
                self.config,
                h@,
                n@,
                0,
                h@.len() as int,
            ) && norm_seq(self.config, h@)[0] == norm_seq(self.config, n@)[0]),
            r matches Some(res) ==> ((res is Some && with_indices) ==> final(indices)@ == old(
                indices,
            )@ + span(0, h@.len() as int)),
            r matches Some(res) ==> ((res is Some && with_indices) ==> exists|new: Seq<u32>|
                final(indices)@ == old(indices)@ + new && valid_indices(
                    norm_seq(self.config, h@),
                    norm_seq(self.config, n@),
                    new,
                )),
            r matches Some(res) ==> (!(res is Some && with_indices) ==> final(indices)@ == old(
                indices,
            )@),
            r is None ==> final(indices)@ == old(indices)@,
    {
        let m = n.len();
        let len = h.len();
        let ghost hs = norm_seq(self.config, h@);
        let ghost ns = norm_seq(self.config, n@);
        if m == 0 {
            return Some(None);
        }
        if m > len {
            proof {
                if fuzzy_matches(hs, ns) {
                    lemma_embeds_len(hs, ns, 0, 0);
                }
            }
            return Some(None);
        }
        if m < len {
            return None;
        }
        let res = self.exact_match_impl(h, n, 0, len, with_indices, indices);
        proof {
            lemma_embeds_equal_len(hs, ns, 0, 0);
            assert(hs.subrange(0, hs.len() as int) =~= hs);
            assert(ns.subrange(0, ns.len() as int) =~= ns);
            if res is Some {
                lemma_span_valid(hs, ns, 0, len as int);
                assert(hs[0] == hs.subrange(0, len as int)[0]);
            }
        }
        Some(res)
    }

    fn fuzzy_match_greedy_impl(
        &self,
        h: Utf32Str,
        n: Utf32Str,
        with_indices: bool,
        indices: &mut Vec<u32>,
    ) -> (r: Option<u16>)
        requires
            self.config.wf(),
            h.wf(),
            h@.len() <= u32::MAX,
        ensures
            r is Some <==> (!ascii_mismatch(h.spec_is_ascii(), n@) && fuzzy_some(self.config, h@, n@)),
            (r is Some && n@.len() == h@.len()) ==> r->0 == window_match_score(
                self.config,
                h@,
                n@,
                0,
                h@.len() as int,
            ),
            forall|start: int|
                #[trigger] first_from(norm_seq(self.config, h@), norm_seq(self.config, n@)[0], 0, start)
                    && r is Some && n@.len() < h@.len() ==> r->0 == greedy_match_score(
                    self.config,
                    h@,
                    n@,
                    start,
                ),
            forall|start: int|
                #[trigger] first_from(norm_seq(self.config, h@), norm_seq(self.config, n@)[0], 0, start)
                    && r is Some && with_indices && n@.len() < h@.len() ==> final(indices)@ == old(
                    indices,
                )@ + greedy_match_positions(self.config, h@, n@, start),
            (r is Some && with_indices && n@.len() == h@.len()) ==> final(indices)@ == old(
                indices,
            )@ + span(0, h@.len() as int),
            (r is Some && with_indices) ==> exists|new: Seq<u32>|
                final(indices)@ == old(indices)@ + new && valid_indices(
                    norm_seq(self.config, h@),
                    norm_seq(self.config, n@),
                    new,
                ),
            !(r is Some && with_indices) ==> final(indices)@ == old(indices)@,
    {
        if h.is_ascii() && !all_ascii_chars(n) {
            return None;
        }
        if let Some(res) = self.match_by_length(h, n, with_indices, indices) {
            return res;
        }
        let (hs, bs, ns) = self.prepare(h, n);
        let start = match self.prefilter(h, &hs, &ns) {
            Some(s) => s,
            None => return None,
        };
        let (score, idx) = self.greedy_from(&hs, &bs, &ns, start);
        if with_indices {
            append_all(indices, &idx);
        }
        Some(score)
    }

    fn fuzzy_matcher_impl(
        &self,
        h: Utf32Str,
        n: Utf32Str,
        with_indices: bool,
        indices: &mut Vec<u32>,
    ) -> (r: Option<u16>)
        requires
            self.config.wf(),
            h.wf(),
            h@.len() <= u32::MAX,
        ensures
            r is Some <==> (!ascii_mismatch(h.spec_is_ascii(), n@) && fuzzy_some(self.config, h@, n@)),
            (r is Some && n@.len() == h@.len()) ==> r->0 == window_match_score(
                self.config,
                h@,
                n@,
                0,
                h@.len() as int,
            ),
            forall|start: int, offs: Seq<usize>|
                #[trigger] optimal_applies(self.config, h@, n@, start, offs) && r is Some ==> r->0
                    == fuzzy_optimal_score(self.config, h@, n@, start, offs),
            forall|start: int, offs: Seq<usize>|
                #[trigger] optimal_applies(self.config, h@, n@, start, offs) && r is Some
                    && with_indices ==> final(indices)@ == old(indices)@ + fuzzy_optimal_positions(
                    self.config,
                    h@,
                    n@,
                    start,
                    offs,
                ),
            forall|start: int|
                #[trigger] first_from(norm_seq(self.config, h@), norm_seq(self.config, n@)[0], 0, start)
                    && r is Some && with_indices && 2 <= n@.len() < h@.len() && !crate::optimal::fits(
                    h@.len() - start,
                    n@.len() as int,
                ) ==> final(indices)@ == old(indices)@ + greedy_match_positions(self.config, h@, n@, start),
            (r is Some && with_indices && n@.len() == h@.len()) ==> final(indices)@ == old(indices)@
                + span(0, h@.len() as int),
            (r is Some && with_indices && n@.len() == 1 && h@.len() > 1) ==> exists|p: int|
                best_single(self.config, h@, n@, p) && final(indices)@ == old(indices)@.push(
                    p as u32,
                ),
            forall|start: int|
                #[trigger] first_from(norm_seq(self.config, h@), norm_seq(self.config, n@)[0], 0, start)
                    && r is Some && 2 <= n@.len() < h@.len() && !crate::optimal::fits(
                    h@.len() - start,
                    n@.len() as int,
                ) ==> r->0 == greedy_match_score(self.config, h@, n@, start),
            (r is Some && n@.len() == 1 && h@.len() > 1) ==> exists|p: int|
                best_single(self.config, h@, n@, p) && r->0 == single_score(
                    self.config.prefer_prefix,
                    bonus_seq(self.config, h@),
                    p,
                ),
            (r is Some && with_indices) ==> exists|new: Seq<u32>|
                final(indices)@ == old(indices)@ + new && valid_indices(
                    norm_seq(self.config, h@),
                    norm_seq(self.config, n@),
                    new,
                ),
            !(r is Some && with_indices) ==> final(indices)@ == old(indices)@,
    {
        if h.is_ascii() && !all_ascii_chars(n) {
            return None;
        }
        if let Some(res) = self.match_by_length(h, n, with_indices, indices) {
            return res;
        }
        let (hs, bs, ns) = self.prepare(h, n);
        let start = match self.prefilter(h, &hs, &ns) {
            Some(s) => s,
            None => return None,
        };
        if ns.len() == 1 {
            let (score, pos) = self.match_single(&hs, &bs, ns[0], start);
            assert(best_single(self.config, h@, n@, pos as int));
            let ghost before = indices@;
            if with_indices {
                indices.push(pos as u32);
                proof {
                    assert(valid_indices(hs@, ns@, seq![pos as u32]));
                    assert(indices@ =~= before + seq![pos as u32]);
                }
            }
            return Some(score);
        }
        let (score, idx) = match crate::optimal::fuzzy_optimal(
            self.config.prefer_prefix,
            &hs,
            &bs,
            &ns,
            start,
        ) {
            Some((score, Some(idx))) => (score, idx),
            Some((score, None)) => (score, self.greedy_from(&hs, &bs, &ns, start).1),
            None => self.greedy_from(&hs, &bs, &ns, start),
        };
        if with_indices {
            append_all(indices, &idx);
        }
        Some(score)
    }

    /// The best fuzzy match of `needle` in `haystack`: the needle's
    /// characters in order, gaps allowed. Falls back to greedy matching
    /// when the haystack and needle are too large.
    pub fn fuzzy_match(&mut self, haystack: Utf32Str, needle: Utf32Str) -> (r: Option<u16>)
        requires
            old(self).config.wf(),
            haystack.wf(),
            haystack@.len() <= u32::MAX,
        ensures
            final(self).config == old(self).config,
            r is Some <==> (!ascii_mismatch(haystack.spec_is_ascii(), needle@) && fuzzy_some(old(self).config, haystack@, needle@)),
            (r is Some && needle@.len() == haystack@.len()) ==> r->0 == window_match_score(
                old(self).config,
                haystack@,
                needle@,
                0,
                haystack@.len() as int,
            ),
            forall|start: int, offs: Seq<usize>|
                #[trigger] optimal_applies(old(self).config, haystack@, needle@, start, offs) && r is Some
                    ==> r->0 == fuzzy_optimal_score(old(self).config, haystack@, needle@, start, offs),
            forall|start: int|
                #[trigger] first_from(
                    norm_seq(old(self).config, haystack@),
                    norm_seq(old(self).config, needle@)[0],
                    0,
                    start,
                ) && r is Some && 2 <= needle@.len() < haystack@.len() && !crate::optimal::fits(
                    haystack@.len() - start,
                    needle@.len() as int,
                ) ==> r->0 == greedy_match_score(old(self).config, haystack@, needle@, start),
            (r is Some && needle@.len() == 1 && haystack@.len() > 1) ==> exists|p: int|
                best_single(old(self).config, haystack@, needle@, p) && r->0 == single_score(
                    old(self).config.prefer_prefix,
                    bonus_seq(old(self).config, haystack@),
                    p,
                ),
    {
        let mut scratch: Vec<u32> = Vec::new();
        self.fuzzy_matcher_impl(haystack, needle, false, &mut scratch)
    }

    /// Like `fuzzy_match`, and appends the matched positions to `indices`.
    pub fn fuzzy_indices(
        &mut self,
        haystack: Utf32Str,
        needle: Utf32Str,
        indices: &mut Vec<u32>,
    ) -> (r: Option<u16>)
        requires
            old(self).config.wf(),
            haystack.wf(),
            haystack@.len() <= u32::MAX,
        ensures
            final(self).config == old(self).config,
            r is Some <==> (!ascii_mismatch(haystack.spec_is_ascii(), needle@) && fuzzy_some(old(self).config, haystack@, needle@)),
            (r is Some && needle@.len() == haystack@.len()) ==> r->0 == window_match_score(
                old(self).config,
                haystack@,
                needle@,
                0,
                haystack@.len() as int,
            ),
            forall|start: int, offs: Seq<usize>|
                #[trigger] optimal_applies(old(self).config, haystack@, needle@, start, offs) && r is Some
                    ==> r->0 == fuzzy_optimal_score(old(self).config, haystack@, needle@, start, offs),
            forall|start: int|
                #[trigger] first_from(
                    norm_seq(old(self).config, haystack@),
                    norm_seq(old(self).config, needle@)[0],
                    0,
                    start,
                ) && r is Some && 2 <= needle@.len() < haystack@.len() && !crate::optimal::fits(
                    haystack@.len() - start,
                    needle@.len() as int,
                ) ==> r->0 == greedy_match_score(old(self).config, haystack@, needle@, start),
            (r is Some && needle@.len() == 1 && haystack@.len() > 1) ==> exists|p: int|
                best_single(old(self).config, haystack@, needle@, p) && r->0 == single_score(
                    old(self).config.prefer_prefix,
                    bonus_seq(old(self).config, haystack@),
                    p,
                ),
            r is Some ==> exists|new: Seq<u32>|
                final(indices)@ == old(indices)@ + new && valid_indices(
                    norm_seq(old(self).config, haystack@),
                    norm_seq(old(self).config, needle@),
                    new,
                ),
            r is None ==> final(indices)@ == old(indices)@,
            forall|start: int, offs: Seq<usize>|
                #[trigger] optimal_applies(old(self).config, haystack@, needle@, start, offs) && r is Some
                    ==> final(indices)@ == old(indices)@ + fuzzy_optimal_positions(
                    old(self).config,
                    haystack@,
                    needle@,
                    start,
                    offs,
                ),
            forall|start: int|
                #[trigger] first_from(
                    norm_seq(old(self).config, haystack@),
                    norm_seq(old(self).config, needle@)[0],
                    0,
                    start,
                ) && r is Some && 2 <= needle@.len() < haystack@.len() && !crate::optimal::fits(
                    haystack@.len() - start,
                    needle@.len() as int,
                ) ==> final(indices)@ == old(indices)@ + greedy_match_positions(
                    old(self).config,
                    haystack@,
                    needle@,
                    start,
                ),
            (r is Some && needle@.len() == haystack@.len()) ==> final(indices)@ == old(indices)@
                + span(0, haystack@.len() as int),
            (r is Some && needle@.len() == 1 && haystack@.len() > 1) ==> exists|p: int|
                best_single(old(self).config, haystack@, needle@, p) && final(indices)@ == old(
                    indices,
                )@.push(p as u32),
    {
        self.fuzzy_matcher_impl(haystack, needle, true, indices)
    }

    /// A greedy fuzzy match in linear time: the first needle character is
    /// taken as late as the leftmost greedy match allows, and the run from
    /// there is scored.
    pub fn fuzzy_match_greedy(&mut self, haystack: Utf32Str, needle: Utf32Str) -> (r: Option<
        u16,
    >)
        requires
            old(self).config.wf(),
            haystack.wf(),
            haystack@.len() <= u32::MAX,
        ensures
            final(self).config == old(self).config,
            r is Some <==> (!ascii_mismatch(haystack.spec_is_ascii(), needle@) && fuzzy_some(old(self).config, haystack@, needle@)),
            (r is Some && needle@.len() == haystack@.len()) ==> r->0 == window_match_score(
                old(self).config,
                haystack@,
                needle@,
                0,
                haystack@.len() as int,
            ),
            forall|start: int|
                #[trigger] first_from(
                    norm_seq(old(self).config, haystack@),
                    norm_seq(old(self).config, needle@)[0],
                    0,
                    start,
                ) && r is Some && needle@.len() < haystack@.len() ==> r->0 == greedy_match_score(
                    old(self).config,
                    haystack@,
                    needle@,
                    start,
                ),
    {
        let mut scratch: Vec<u32> = Vec::new();
        self.fuzzy_match_greedy_impl(haystack, needle, false, &mut scratch)
    }

    /// Like `fuzzy_match_greedy`, and appends the matched positions to `indices`.
    pub fn fuzzy_indices_greedy(
        &mut self,
        haystack: Utf32Str,
        needle: Utf32Str,
        indices: &mut Vec<u32>,
    ) -> (r: Option<u16>)
        requires
            old(self).config.wf(),
            haystack.wf(),
            haystack@.len() <= u32::MAX,
        ensures
            final(self).config == old(self).config,
            r is Some <==> (!ascii_mismatch(haystack.spec_is_ascii(), needle@) && fuzzy_some(old(self).config, haystack@, needle@)),
            (r is Some && needle@.len() == haystack@.len()) ==> r->0 == window_match_score(
                old(self).config,
                haystack@,
                needle@,
                0,
                haystack@.len() as int,
            ),
            forall|start: int|
                #[trigger] first_from(
                    norm_seq(old(self).config, haystack@),
                    norm_seq(old(self).config, needle@)[0],
                    0,
                    start,
                ) && r is Some && needle@.len() < haystack@.len() ==> r->0 == greedy_match_score(
                    old(self).config,
                    haystack@,
                    needle@,
                    start,
                ),
            r is Some ==> exists|new: Seq<u32>|
                final(indices)@ == old(indices)@ + new && valid_indices(
                    norm_seq(old(self).config, haystack@),
                    norm_seq(old(self).config, needle@),
                    new,
                ),
            r is None ==> final(indices)@ == old(indices)@,
            forall|start: int|
                #[trigger] first_from(
                    norm_seq(old(self).config, haystack@),
                    norm_seq(old(self).config, needle@)[0],
                    0,
                    start,
                ) && r is Some && needle@.len() < haystack@.len() ==> final(indices)@ == old(
                    indices,
                )@ + greedy_match_positions(old(self).config, haystack@, needle@, start),
            (r is Some && needle@.len() == haystack@.len()) ==> final(indices)@ == old(indices)@
                + span(0, haystack@.len() as int),
    {
        self.fuzzy_match_greedy_impl(haystack, needle, true, indices)
    }

    /// The best contiguous occurrence of `needle` in `haystack`.
    pub fn substring_match(&mut self, haystack: Utf32Str, needle: Utf32Str) -> (r: Option<u16>)
        requires
            old(self).config.wf(),
            haystack@.len() <= u32::MAX,
        ensures
            final(self).config == old(self).config,
            r is Some <==> (!ascii_mismatch(haystack.spec_is_ascii(), needle@) && substring_some(old(self).config, haystack@, needle@)),
            r is Some ==> exists|p: int|
                best_occurrence(old(self).config, haystack@, needle@, p) && r->0
                    == window_match_score(
                    old(self).config,
                    haystack@,
                    needle@,
                    p,
                    p + needle@.len(),
                ),
    {
        let mut scratch: Vec<u32> = Vec::new();
        self.substring_match_impl(haystack, needle, false, &mut scratch)
    }

    /// Like `substring_match`, and appends the matched positions to `indices`.
    pub fn substring_indices(
        &mut self,
        haystack: Utf32Str,
        needle: Utf32Str,
        indices: &mut Vec<u32>,
    ) -> (r: Option<u16>)
        requires
            old(self).config.wf(),
            haystack@.len() <= u32::MAX,
        ensures
            final(self).config == old(self).config,
            r is Some <==> (!ascii_mismatch(haystack.spec_is_ascii(), needle@) && substring_some(old(self).config, haystack@, needle@)),
            r is Some ==> exists|p: int|
                best_occurrence(old(self).config, haystack@, needle@, p) && r->0
                    == window_match_score(
                    old(self).config,
                    haystack@,
                    needle@,
                    p,
                    p + needle@.len(),
                ) && final(indices)@ == old(indices)@ + span(p, p + needle@.len()),
            r is None ==> final(indices)@ == old(indices)@,
    {
        self.substring_match_impl(haystack, needle, true, indices)
    }

    /// Whether `needle` equals `haystack` under the configured case and
    /// normalization policy.
    pub fn exact_match(&mut self, haystack: Utf32Str, needle: Utf32Str) -> (r: Option<u16>)
        requires
            old(self).config.wf(),
            haystack@.len() <= u32::MAX,
        ensures
            final(self).config == old(self).config,
            r is Some <==> (!ascii_mismatch(haystack.spec_is_ascii(), needle@) && exact_some(old(self).config, haystack@, needle@)),
            r is Some ==> r->0 == window_match_score(
                old(self).config,
                haystack@,
                needle@,
                0,
                haystack@.len() as int,
            ),
    {
        let mut scratch: Vec<u32> = Vec::new();
        self.exact_match_impl(haystack, needle, 0, haystack.len(), false, &mut scratch)
    }

    /// Like `exact_match`, and appends the matched positions to `indices`.
    pub fn exact_indices(
        &mut self,
        haystack: Utf32Str,
        needle: Utf32Str,
        indices: &mut Vec<u32>,
    ) -> (r: Option<u16>)
        requires
            old(self).config.wf(),
            haystack@.len() <= u32::MAX,
        ensures
            final(self).config == old(self).config,
            r is Some <==> (!ascii_mismatch(haystack.spec_is_ascii(), needle@) && exact_some(old(self).config, haystack@, needle@)),
            r is Some ==> r->0 == window_match_score(
                old(self).config,
                haystack@,
                needle@,
                0,
                haystack@.len() as int,
            ) && final(indices)@ == old(indices)@ + span(0, haystack@.len() as int),
            r is None ==> final(indices)@ == old(indices)@,
    {
        self.exact_match_impl(haystack, needle, 0, haystack.len(), true, indices)
    }

    /// Whether `needle` equals the start of `haystack`.
    pub fn prefix_match(&mut self, haystack: Utf32Str, needle: Utf32Str) -> (r: Option<u16>)
        requires
            old(self).config.wf(),
            haystack@.len() <= u32::MAX,
        ensures
            final(self).config == old(self).config,
            r is Some <==> (!ascii_mismatch(haystack.spec_is_ascii(), needle@) && prefix_some(old(self).config, haystack@, needle@)),
            r is Some ==> r->0 == window_match_score(
                old(self).config,
                haystack@,
                needle@,
                0,
                needle@.len() as int,
            ),
    {
        let mut scratch: Vec<u32> = Vec::new();
        self.prefix_indices_impl(haystack, needle, false, &mut scratch)
    }

    /// Like `prefix_match`, and appends the matched positions to `indices`.
    pub fn prefix_indices(
        &mut self,
        haystack: Utf32Str,
        needle: Utf32Str,
        indices: &mut Vec<u32>,
    ) -> (r: Option<u16>)
        requires
            old(self).config.wf(),
            haystack@.len() <= u32::MAX,
        ensures
            final(self).config == old(self).config,
            r is Some <==> (!ascii_mismatch(haystack.spec_is_ascii(), needle@) && prefix_some(old(self).config, haystack@, needle@)),
            r is Some ==> r->0 == window_match_score(
                old(self).config,
                haystack@,
                needle@,
                0,
                needle@.len() as int,
            ) && final(indices)@ == old(indices)@ + span(0, needle@.len() as int),
            r is None ==> final(indices)@ == old(indices)@,
    {
        self.prefix_indices_impl(haystack, needle, true, indices)
    }

    fn prefix_indices_impl(
        &self,
        haystack: Utf32Str,
        needle: Utf32Str,
        with_indices: bool,
        indices: &mut Vec<u32>,
    ) -> (r: Option<u16>)
        requires
            self.config.wf(),
            haystack@.len() <= u32::MAX,
        ensures
            r is Some <==> (!ascii_mismatch(haystack.spec_is_ascii(), needle@) && prefix_some(self.config, haystack@, needle@)),
            r is Some ==> r->0 == window_match_score(
                self.config,
                haystack@,
                needle@,
                0,
                needle@.len() as int,
            ),
            (r is Some && with_indices) ==> final(indices)@ == old(indices)@ + span(
                0,
                needle@.len() as int,
            ),
            !(r is Some && with_indices) ==> final(indices)@ == old(indices)@,
    {
        if haystack.len() < needle.len() {
            None
        } else {
            self.exact_match_impl(haystack, needle, 0, needle.len(), with_indices, indices)
        }
    }

    /// Whether `needle` equals the end of `haystack`.
    pub fn postfix_match(&mut self, haystack: Utf32Str, needle: Utf32Str) -> (r: Option<u16>)
        requires
            old(self).config.wf(),
            haystack@.len() <= u32::MAX,
        ensures
            final(self).config == old(self).config,
            r is Some <==> (!ascii_mismatch(haystack.spec_is_ascii(), needle@) && postfix_some(old(self).config, haystack@, needle@)),
            r is Some ==> r->0 == window_match_score(
                old(self).config,
                haystack@,
                needle@,
                haystack@.len() - needle@.len(),
                haystack@.len() as int,
            ),
    {
        let mut scratch: Vec<u32> = Vec::new();
        self.postfix_indices_impl(haystack, needle, false, &mut scratch)
    }

    /// Like `postfix_match`, and appends the matched positions to `indices`.
    pub fn postfix_indices(
        &mut self,
        haystack: Utf32Str,
        needle: Utf32Str,
        indices: &mut Vec<u32>,
    ) -> (r: Option<u16>)
        requires
            old(self).config.wf(),
            haystack@.len() <= u32::MAX,
        ensures
            final(self).config == old(self).config,
            r is Some <==> (!ascii_mismatch(haystack.spec_is_ascii(), needle@) && postfix_some(old(self).config, haystack@, needle@)),
            r is Some ==> r->0 == window_match_score(
                old(self).config,
                haystack@,
                needle@,
                haystack@.len() - needle@.len(),
                haystack@.len() as int,
            ) && final(indices)@ == old(indices)@ + span(
                haystack@.len() - needle@.len(),
                haystack@.len() as int,
            ),
            r is None ==> final(indices)@ == old(indices)@,
    {
        self.postfix_indices_impl(haystack, needle, true, indices)
    }

    fn postfix_indices_impl(
        &self,
        haystack: Utf32Str,
        needle: Utf32Str,
        with_indices: bool,
        indices: &mut Vec<u32>,
    ) -> (r: Option<u16>)
        requires
            self.config.wf(),
            haystack@.len() <= u32::MAX,
        ensures
            r is Some <==> (!ascii_mismatch(haystack.spec_is_ascii(), needle@) && postfix_some(self.config, haystack@, needle@)),
            r is Some ==> r->0 == window_match_score(
                self.config,
                haystack@,
                needle@,
                haystack@.len() - needle@.len(),
                haystack@.len() as int,
            ),
            (r is Some && with_indices) ==> final(indices)@ == old(indices)@ + span(
                haystack@.len() - needle@.len(),
                haystack@.len() as int,
            ),
            !(r is Some && with_indices) ==> final(indices)@ == old(indices)@,
    {
        if haystack.len() < needle.len() {
            None
        } else {
            self.exact_match_impl(
                haystack,
                needle,
                haystack.len() - needle.len(),
                haystack.len(),
                with_indices,
                indices,
            )
        }
    }
}

/// The positions of a window that spells the needle are valid indices.
pub proof fn lemma_span_valid(hs: Seq<char>, ns: Seq<char>, start: int, end: int)
    requires
        0 <= start <= end <= hs.len() <= u32::MAX,
        ns.len() == end - start,
        hs.subrange(start, end) == ns,
    ensures
        valid_indices(hs, ns, span(start, end)),
{
    assert forall|k: int| 0 <= k < ns.len() implies hs[#[trigger] span(start, end)[k] as int]
        == ns[k] by {
        assert(hs.subrange(start, end)[k] == hs[start + k]);
    }
}

/// Appends `src` to `dst`.
fn append_all(dst: &mut Vec<u32>, src: &Vec<u32>)
    ensures
        final(dst)@ == old(dst)@ + src@,
{
    let mut i: usize = 0;
    let ghost before = dst@;
    while i < src.len()
        invariant
            i <= src@.len(),
            dst@ == before + src@.subrange(0, i as int),
        decreases src@.len() - i,
    {
        dst.push(src[i]);
        i += 1;
        assert(dst@ =~= before + src@.subrange(0, i as int));
    }
    assert(src@.subrange(0, i as int) =~= src@);
}

/// Positions `idx`, increasing from `i` on, that spell `ns[j..]` make the
/// greedy subsequence check succeed: it finds a match whenever one exists.
pub proof fn lemma_embeds_complete(hs: Seq<char>, ns: Seq<char>, i: int, j: int, idx: Seq<int>)
    requires
        0 <= i,
        0 <= j <= ns.len(),
        idx.len() == ns.len() - j,
        forall|k: int| 0 <= k < idx.len() ==> i <= #[trigger] idx[k] < hs.len(),
        forall|a: int, b: int| 0 <= a < b < idx.len() ==> #[trigger] idx[a] < #[trigger] idx[b],
        forall|k: int| 0 <= k < idx.len() ==> hs[#[trigger] idx[k]] == ns[j + k],
    ensures
        embeds_from(hs, ns, i, j),
    decreases hs.len() - i,
{
    if j < ns.len() {
        assert(i <= idx[0] < hs.len());
        if hs[i] == ns[j] {
            let rest = idx.drop_first();
            assert forall|k: int| 0 <= k < rest.len() implies i + 1 <= #[trigger] rest[k] < hs.len() by {
                assert(rest[k] == idx[k + 1]);
                assert(idx[0] < idx[k + 1]);
            }
            assert forall|k: int| 0 <= k < rest.len() implies hs[#[trigger] rest[k]] == ns[j + 1 + k] by {
                assert(rest[k] == idx[k + 1]);
            }
            assert forall|a: int, b: int| 0 <= a < b < rest.len() implies #[trigger] rest[a]
                < #[trigger] rest[b] by {
                assert(rest[a] == idx[a + 1]);
                assert(rest[b] == idx[b + 1]);
            }
            lemma_embeds_complete(hs, ns, i + 1, j + 1, rest);
        } else {
            assert(idx[0] != i);
            assert forall|k: int| 0 <= k < idx.len() implies i + 1 <= #[trigger] idx[k] < hs.len() by {
                if k > 0 {
                    assert(idx[0] < idx[k]);
                }
            }
            lemma_embeds_complete(hs, ns, i + 1, j, idx);
        }
    }
}

/// A needle that occurs without gaps also matches fuzzily.
pub proof fn law_substring_implies_fuzzy(cfg: MatcherConfig, h: Seq<char>, n: Seq<char>)
    requires
        substring_some(cfg, h, n),
    ensures
        fuzzy_some(cfg, h, n),
{
    let hs = norm_seq(cfg, h);
    let ns = norm_seq(cfg, n);
    let p = choose|p: int| occurs_at(hs, ns, p);
    let idx = Seq::new(ns.len(), |k: int| p + k);
    assert forall|k: int| 0 <= k < idx.len() implies hs[#[trigger] idx[k]] == ns[0 + k] by {
        assert(hs.subrange(p, p + ns.len())[k] == hs[p + k]);
    }
    lemma_embeds_complete(hs, ns, 0, 0, idx);
}

/// Any valid match positions witness a fuzzy match.
pub proof fn law_indices_witness_fuzzy(cfg: MatcherConfig, h: Seq<char>, n: Seq<char>, idx: Seq<u32>)
    requires
        n.len() > 0,
        valid_indices(norm_seq(cfg, h), norm_seq(cfg, n), idx),
    ensures
        fuzzy_some(cfg, h, n),
{
    let hs = norm_seq(cfg, h);
    let ns = norm_seq(cfg, n);
    let pos = idx.map_values(|x: u32| x as int);
    assert forall|k: int| 0 <= k < pos.len() implies hs[#[trigger] pos[k]] == ns[0 + k] by {
        assert(pos[k] == idx[k] as int);
    }
    assert forall|a: int, b: int| 0 <= a < b < pos.len() implies #[trigger] pos[a] < #[trigger] pos[b] by {
        assert(idx[a] < idx[b]);
    }
    lemma_embeds_complete(hs, ns, 0, 0, pos);
}

/// The dynamic program's inputs are determined by the configuration, the
/// haystack and the needle, so two fuzzy matches of the same inputs that
/// it scores agree, whichever matcher runs them.
pub proof fn law_fuzzy_score_determined(
    cfg: MatcherConfig,
    h: Seq<char>,
    n: Seq<char>,
    s1: int,
    o1: Seq<usize>,
    s2: int,
    o2: Seq<usize>,
)
    requires
        optimal_applies(cfg, h, n, s1, o1),
        optimal_applies(cfg, h, n, s2, o2),
    ensures
        s1 == s2,
        o1 == o2,
        fuzzy_optimal_score(cfg, h, n, s1, o1) == fuzzy_optimal_score(cfg, h, n, s2, o2),
{
    let hs = norm_seq(cfg, h);
    let ns = norm_seq(cfg, n);
    if s1 < s2 {
        assert(hs[s1] == ns[0]);
    } else if s2 < s1 {
        assert(hs[s2] == ns[0]);
    }
    crate::optimal::lemma_offsets_unique(hs, ns, s1, o1, o2);
}

/// Every fuzzy match has a first occurrence of its first needle character,
/// and, when the dynamic program applies there, its row starts: together
/// with `law_fuzzy_score_determined` this makes the score of `fuzzy_match`
/// (and the positions of `fuzzy_indices`) a function of the configuration,
/// the haystack and the needle, whichever matcher computes them.
pub proof fn law_fuzzy_inputs_exist(cfg: MatcherConfig, h: Seq<char>, n: Seq<char>)
    requires
        fuzzy_some(cfg, h, n),
        h.len() <= u32::MAX,
    ensures
        ({
            let hs = norm_seq(cfg, h);
            let ns = norm_seq(cfg, n);
            let start = crate::optimal::next_at(hs, ns[0], 0);
            &&& first_from(hs, ns[0], 0, start)
            &&& (2 <= n.len() < h.len() && crate::optimal::fits(h.len() - start, n.len() as int))
                ==> optimal_applies(
                cfg,
                h,
                n,
                start,
                crate::optimal::offsets_upto(hs, ns, start, (ns.len() - 1) as nat),
            )
        }),
{
    let hs = norm_seq(cfg, h);
    let ns = norm_seq(cfg, n);
    crate::optimal::lemma_next_at(hs, ns[0], 0);
    let start = crate::optimal::next_at(hs, ns[0], 0);
    if start >= hs.len() {
        lemma_embeds_absent(hs, ns, 0, 0);
    }
    lemma_embeds_skip(hs, ns, 0, 0, start);
    crate::optimal::lemma_offsets_exist(hs, ns, start);
}

/// The best occurrence is unique, so the substring score and positions are
/// determined by the inputs.
pub proof fn law_best_occurrence_unique(cfg: MatcherConfig, h: Seq<char>, n: Seq<char>, p: int, q: int)
    requires
        best_occurrence(cfg, h, n, p),
        best_occurrence(cfg, h, n, q),
    ensures
        p == q,
{
}

/// A run over a window that spells the needle gains at least a full match
/// score per character, up to the largest score.
proof fn lemma_exact_run_floor(hs: Seq<char>, bs: Seq<u16>, ns: Seq<char>, start: int, i: int)
    requires
        0 <= start < i <= start + ns.len() <= hs.len(),
        hs.subrange(start, start + ns.len()) == ns,
        ns.len() * SCORE_MATCH <= u16::MAX,
        hs.len() == bs.len(),
        small_bonuses(bs),
    ensures
        run_to(hs, bs, ns, start, i).score >= (i - start) * SCORE_MATCH,
        run_to(hs, bs, ns, start, i).first_bonus <= crate::config::MAX_BOUNDARY_BONUS,
    decreases i - start,
{
    lemma_run_exact(hs, bs, ns, start, i);
    assert(bs[start] <= crate::config::MAX_BOUNDARY_BONUS);
    if i > start + 1 {
        lemma_exact_run_floor(hs, bs, ns, start, i - 1);
        lemma_run_exact(hs, bs, ns, start, i - 1);
        assert(hs[i - 1] == hs.subrange(start, start + ns.len())[i - 1 - start]);
        assert((i - start) * SCORE_MATCH <= ns.len() * SCORE_MATCH) by (nonlinear_arith)
            requires
                i - start <= ns.len(),
        ;
        let r = run_to(hs, bs, ns, start, i - 1);
        let b = bs[i - 1];
        assert(b <= crate::config::MAX_BOUNDARY_BONUS);
        assert(r.j == i - 1 - start);
        assert(hs[i - 1] == ns[r.j as int]);
        let fb = if r.run {
            if b >= crate::config::BONUS_BOUNDARY && b > r.first_bonus {
                b
            } else {
                r.first_bonus
            }
        } else {
            b
        };
        let bonus = if r.run {
            crate::score::max16(crate::score::max16(b, fb), crate::config::BONUS_CONSECUTIVE)
        } else {
            b
        };
        assert(bonus <= crate::config::MAX_BOUNDARY_BONUS);
        assert(run_to(hs, bs, ns, start, i).score == r.score.saturating_add(
            (SCORE_MATCH + bonus) as u16,
        ));
    }
}

/// A prefix, postfix or exact match scores at least a full match score per
/// needle character, less one gap extension per haystack character, as long
/// as that sum fits the score type.
pub proof fn law_window_score_floor(cfg: MatcherConfig, h: Seq<char>, n: Seq<char>, start: int, end: int)
    requires
        cfg.wf(),
        0 <= start <= end <= h.len(),
        window_some(cfg, h, n, start, end),
        n.len() * SCORE_MATCH <= u16::MAX,
    ensures
        window_match_score(cfg, h, n, start, end) >= n.len() * SCORE_MATCH - h.len()
            * crate::config::PENALTY_GAP_EXTENSION,
{
    let hs = norm_seq(cfg, h);
    let ns = norm_seq(cfg, n);
    let bs = bonus_seq(cfg, h);
    assert forall|q: int| 0 <= q < bs.len() implies #[trigger] bs[q]
        <= crate::config::MAX_BOUNDARY_BONUS by {
        assert(bs[q] == crate::score::bonus_at(cfg, h, q));
    }
    lemma_exact_run_floor(hs, bs, ns, start, end);
}

/// `p` is the first occurrence of `n` in `h` with the highest score.
pub open spec fn best_occurrence(cfg: MatcherConfig, h: Seq<char>, n: Seq<char>, p: int) -> bool {
    let hs = norm_seq(cfg, h);
    let ns = norm_seq(cfg, n);
    &&& occurs_at(hs, ns, p)
    &&& forall|q: int|
        occurs_at(hs, ns, q) ==> window_match_score(cfg, h, n, q, q + n.len())
            <= window_match_score(cfg, h, n, p, p + n.len())
    &&& forall|q: int|
        0 <= q < p && occurs_at(hs, ns, q) ==> window_match_score(cfg, h, n, q, q + n.len())
            < window_match_score(cfg, h, n, p, p + n.len())
}

} // verus!
