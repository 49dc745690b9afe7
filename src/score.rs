//! The scoring model: normalized characters, boundary bonuses, and the score
//! of a left-to-right run over a haystack window.
use vstd::prelude::*;

use crate::chars::{char_class, classify, norm_char, normalize_char, CharClass};
use crate::config::{
    MatcherConfig, BONUS_BOUNDARY, BONUS_CONSECUTIVE, BONUS_FIRST_CHAR_MULTIPLIER,
    MAX_BOUNDARY_BONUS, PENALTY_GAP_EXTENSION, PENALTY_GAP_START, SCORE_MATCH,
};

verus! {

/// The largest bonus for a match near the start of the haystack.
pub const MAX_PREFIX_BONUS: u16 = BONUS_BOUNDARY;

/// Characters in the form in which they are compared.
pub open spec fn norm_seq(cfg: MatcherConfig, s: Seq<char>) -> Seq<char> {
    s.map_values(|c: char| norm_char(c, cfg.normalize, cfg.ignore_case))
}

/// Class of the character at `i`.
pub open spec fn class_at(cfg: MatcherConfig, s: Seq<char>, i: int) -> CharClass {
    char_class(s[i], cfg.delimiter_chars@)
}

/// Class of the character before `i` (the configured initial class at 0).
pub open spec fn prev_class_at(cfg: MatcherConfig, s: Seq<char>, i: int) -> CharClass {
    if i <= 0 {
        cfg.initial_char_class
    } else {
        class_at(cfg, s, i - 1)
    }
}

/// Boundary bonus of the character at `i`.
pub open spec fn bonus_at(cfg: MatcherConfig, s: Seq<char>, i: int) -> u16 {
    cfg.spec_bonus_for(prev_class_at(cfg, s, i), class_at(cfg, s, i))
}

/// Boundary bonus of every character.
pub open spec fn bonus_seq(cfg: MatcherConfig, s: Seq<char>) -> Seq<u16> {
    Seq::new(s.len(), |i: int| bonus_at(cfg, s, i))
}

/// Every bonus is at most the largest boundary bonus.
pub open spec fn small_bonuses(bs: Seq<u16>) -> bool {
    forall|i: int| 0 <= i < bs.len() ==> #[trigger] bs[i] <= MAX_BOUNDARY_BONUS
}

/// Bonus for a match whose first character is at `start`, when prefix
/// preference is on; it decays by one every two columns.
pub open spec fn prefix_bonus(prefer: bool, start: int) -> u16 {
    if !prefer || start >= 2 * MAX_PREFIX_BONUS {
        0
    } else {
        (MAX_PREFIX_BONUS - start / 2) as u16
    }
}

/// State of a left-to-right scoring run.
pub struct Run {
    pub score: u16,
    /// Index of the next needle character.
    pub j: nat,
    /// Whether the last position was a match.
    pub run: bool,
    /// Bonus that characters of the current run of matches keep.
    pub first_bonus: u16,
    /// Whether the last position was a gap.
    pub in_gap: bool,
    /// Matched positions so far.
    pub idx: Seq<int>,
}

pub open spec fn max16(a: u16, b: u16) -> u16 {
    if a >= b {
        a
    } else {
        b
    }
}

/// Run state after the first needle character matched at `start`. The
/// first character's bonus counts twice and is not carried into the run.
pub open spec fn run_start(bs: Seq<u16>, start: int) -> Run {
    Run {
        score: (SCORE_MATCH + BONUS_FIRST_CHAR_MULTIPLIER * bs[start]) as u16,
        j: 1,
        run: true,
        first_bonus: 0,
        in_gap: false,
        idx: seq![start],
    }
}

/// One position of a run: a match of the next needle character extends the
/// run (it keeps the run's bonus, at least `BONUS_CONSECUTIVE`; a boundary
/// bonus above it restarts it), any other character is a gap.
pub open spec fn run_step(r: Run, c: char, b: u16, pos: int, ns: Seq<char>) -> Run {
    if r.j >= ns.len() {
        r
    } else if c == ns[r.j as int] {
        let fb = if r.run {
            if b >= BONUS_BOUNDARY && b > r.first_bonus {
                b
            } else {
                r.first_bonus
            }
        } else {
            b
        };
        let bonus = if r.run {
            max16(max16(b, fb), BONUS_CONSECUTIVE)
        } else {
            b
        };
        Run {
            score: r.score.saturating_add((SCORE_MATCH + bonus) as u16),
            j: r.j + 1,
            run: true,
            first_bonus: fb,
            in_gap: false,
            idx: r.idx.push(pos),
        }
    } else {
        let penalty = if r.in_gap {
            PENALTY_GAP_EXTENSION
        } else {
            PENALTY_GAP_START
        };
        Run {
            score: r.score.saturating_sub(penalty),
            j: r.j,
            run: false,
            first_bonus: r.first_bonus,
            in_gap: true,
            idx: r.idx,
        }
    }
}

/// The run from `start` over the positions before `i`.
pub open spec fn run_to(hs: Seq<char>, bs: Seq<u16>, ns: Seq<char>, start: int, i: int) -> Run
    decreases i - start,
{
    if i <= start + 1 {
        run_start(bs, start)
    } else {
        run_step(run_to(hs, bs, ns, start, i - 1), hs[i - 1], bs[i - 1], i - 1, ns)
    }
}

/// Score of the run that starts with a match at `start` and covers
/// `start..end`, with the prefix bonus.
pub open spec fn window_score(
    prefer: bool,
    hs: Seq<char>,
    bs: Seq<u16>,
    ns: Seq<char>,
    start: int,
    end: int,
) -> u16 {
    run_to(hs, bs, ns, start, end).score.saturating_add(prefix_bonus(prefer, start))
}

/// Positions as `u32`.
pub open spec fn idx_u32(s: Seq<int>) -> Seq<u32> {
    s.map_values(|x: int| x as u32)
}

/// Whether `idx` is strictly increasing, inside `0..len`.
pub open spec fn increasing_within(idx: Seq<int>, len: int) -> bool {
    &&& forall|k: int| 0 <= k < idx.len() ==> 0 <= #[trigger] idx[k] < len
    &&& forall|a: int, b: int| 0 <= a < b < idx.len() ==> #[trigger] idx[a] < #[trigger] idx[b]
}

/// Whether the characters at `idx` spell the needle's first `idx.len()` characters.
pub open spec fn spells(hs: Seq<char>, ns: Seq<char>, idx: Seq<int>) -> bool {
    &&& idx.len() <= ns.len()
    &&& forall|k: int| 0 <= k < idx.len() ==> hs[#[trigger] idx[k]] == ns[k]
}

/// Whether `idx` lists, in increasing order, haystack positions whose
/// compared characters spell the whole compared needle.
pub open spec fn valid_indices(hs: Seq<char>, ns: Seq<char>, idx: Seq<u32>) -> bool {
    &&& idx.len() == ns.len()
    &&& forall|k: int| 0 <= k < idx.len() ==> (#[trigger] idx[k] as int) < hs.len()
    &&& forall|a: int, b: int| 0 <= a < b < idx.len() ==> #[trigger] idx[a] < #[trigger] idx[b]
    &&& forall|k: int| 0 <= k < idx.len() ==> hs[#[trigger] idx[k] as int] == ns[k]
}

/// A run records one position per matched needle character, each a
/// match, in increasing order inside the window.
pub proof fn lemma_run_positions(hs: Seq<char>, bs: Seq<u16>, ns: Seq<char>, start: int, i: int)
    requires
        0 <= start < i <= hs.len(),
        ns.len() >= 1,
        hs[start] == ns[0],
    ensures
        run_to(hs, bs, ns, start, i).idx.len() == run_to(hs, bs, ns, start, i).j,
        1 <= run_to(hs, bs, ns, start, i).j <= ns.len(),
        spells(hs, ns, run_to(hs, bs, ns, start, i).idx),
        increasing_within(run_to(hs, bs, ns, start, i).idx, i),
        forall|k: int|
            0 <= k < run_to(hs, bs, ns, start, i).idx.len() ==> start <= #[trigger] run_to(
                hs,
                bs,
                ns,
                start,
                i,
            ).idx[k],
        run_to(hs, bs, ns, start, i).idx[0] == start,
    decreases i - start,
{
    if i > start + 1 {
        lemma_run_positions(hs, bs, ns, start, i - 1);
        let r = run_to(hs, bs, ns, start, i - 1);
        let r2 = run_to(hs, bs, ns, start, i);
        if r.j < ns.len() && hs[i - 1] == ns[r.j as int] {
            assert(r2.idx == r.idx.push(i - 1));
            assert(r2.idx[0] == r.idx[0]);
            assert forall|k: int| 0 <= k < r2.idx.len() implies hs[#[trigger] r2.idx[k]]
                == ns[k] by {
                if k < r.idx.len() {
                    assert(r2.idx[k] == r.idx[k]);
                }
            }
            assert forall|a: int, b: int| 0 <= a < b < r2.idx.len() implies #[trigger] r2.idx[a]
                < #[trigger] r2.idx[b] by {
                assert(r2.idx[a] == r.idx[a]);
                if b < r.idx.len() {
                    assert(r2.idx[b] == r.idx[b]);
                }
            }
        }
    } else {
        let r = run_to(hs, bs, ns, start, i);
        assert(r.idx == seq![start]);
    }
}

/// While the run from `start` has needle characters left, it has matched
/// them greedily: what remains embeds after `i` exactly when the whole
/// needle embeds after `start`.
pub proof fn lemma_run_embeds(hs: Seq<char>, bs: Seq<u16>, ns: Seq<char>, start: int, i: int)
    requires
        0 <= start < i <= hs.len(),
        ns.len() >= 1,
        hs[start] == ns[0],
    ensures
        run_to(hs, bs, ns, start, i).j < ns.len() ==> (crate::search::embeds_from(
            hs,
            ns,
            start + 1,
            1,
        ) == crate::search::embeds_from(hs, ns, i, run_to(hs, bs, ns, start, i).j as int)),
    decreases i - start,
{
    if i > start + 1 {
        lemma_run_embeds(hs, bs, ns, start, i - 1);
        lemma_run_positions(hs, bs, ns, start, i - 1);
    }
}

/// A run over the whole haystack from a first needle character matches
/// every needle character when the rest of the needle embeds after it.
pub proof fn lemma_run_completes(hs: Seq<char>, bs: Seq<u16>, ns: Seq<char>, start: int)
    requires
        0 <= start < hs.len(),
        ns.len() >= 1,
        hs[start] == ns[0],
        crate::search::embeds_from(hs, ns, start + 1, 1),
    ensures
        run_to(hs, bs, ns, start, hs.len() as int).j == ns.len(),
{
    lemma_run_embeds(hs, bs, ns, start, hs.len() as int);
    lemma_run_positions(hs, bs, ns, start, hs.len() as int);
}

/// Over a window that spells the needle, the run matches every position.
pub proof fn lemma_run_exact(hs: Seq<char>, bs: Seq<u16>, ns: Seq<char>, start: int, i: int)
    requires
        0 <= start < i <= start + ns.len() <= hs.len(),
        hs.subrange(start, start + ns.len()) == ns,
    ensures
        run_to(hs, bs, ns, start, i).j == i - start,
        run_to(hs, bs, ns, start, i).idx == Seq::new((i - start) as nat, |k: int| start + k),
    decreases i - start,
{
    assert(hs[start] == hs.subrange(start, start + ns.len())[0]);
    if i > start + 1 {
        lemma_run_exact(hs, bs, ns, start, i - 1);
        assert(hs[i - 1] == hs.subrange(start, start + ns.len())[i - 1 - start]);
        assert(run_to(hs, bs, ns, start, i).idx =~= Seq::new(
            (i - start) as nat,
            |k: int| start + k,
        ));
    } else {
        assert(run_to(hs, bs, ns, start, i).idx =~= Seq::new(
            (i - start) as nat,
            |k: int| start + k,
        ));
    }
}

/// The positions of a run that matched the whole needle are valid match
/// indices.
pub proof fn lemma_run_valid(hs: Seq<char>, bs: Seq<u16>, ns: Seq<char>, start: int, end: int)
    requires
        0 <= start < end <= hs.len() <= u32::MAX,
        ns.len() >= 1,
        hs[start] == ns[0],
        run_to(hs, bs, ns, start, end).j == ns.len(),
    ensures
        valid_indices(hs, ns, idx_u32(run_to(hs, bs, ns, start, end).idx)),
{
    lemma_run_positions(hs, bs, ns, start, end);
    let r = run_to(hs, bs, ns, start, end);
    let idx = idx_u32(r.idx);
    assert forall|k: int| 0 <= k < idx.len() implies idx[k] as int == r.idx[k] by {
        assert(0 <= r.idx[k] < end);
    }
    assert forall|a: int, b: int| 0 <= a < b < idx.len() implies #[trigger] idx[a]
        < #[trigger] idx[b] by {
        assert(idx[a] as int == r.idx[a]);
        assert(idx[b] as int == r.idx[b]);
        assert(r.idx[a] < r.idx[b]);
    }
    assert forall|k: int| 0 <= k < idx.len() implies hs[#[trigger] idx[k] as int] == ns[k] by {
        assert(idx[k] as int == r.idx[k]);
    }
}

/// The compared form of every character of `s`.
pub fn normalize_all(cfg: &MatcherConfig, s: &Vec<char>) -> (r: Vec<char>)
    ensures
        r@ == norm_seq(*cfg, s@),
{
    let mut out: Vec<char> = Vec::new();
    let mut i: usize = 0;
    while i < s.len()
        invariant
            i <= s@.len(),
            out@ == norm_seq(*cfg, s@).subrange(0, i as int),
        decreases s@.len() - i,
    {
        out.push(normalize_char(s[i], cfg.normalize, cfg.ignore_case));
        i += 1;
        assert(out@ =~= norm_seq(*cfg, s@).subrange(0, i as int));
    }
    assert(out@ =~= norm_seq(*cfg, s@));
    out
}

/// The boundary bonus of every character of `s`.
pub fn bonuses(cfg: &MatcherConfig, s: &Vec<char>) -> (r: Vec<u16>)
    requires
        cfg.wf(),
    ensures
        r@ == bonus_seq(*cfg, s@),
        small_bonuses(r@),
{
    let mut out: Vec<u16> = Vec::new();
    let mut prev = cfg.initial_char_class;
    let mut i: usize = 0;
    while i < s.len()
        invariant
            cfg.wf(),
            i <= s@.len(),
            out@ == bonus_seq(*cfg, s@).subrange(0, i as int),
            small_bonuses(out@),
            prev == prev_class_at(*cfg, s@, i as int),
        decreases s@.len() - i,
    {
        let class = classify(s[i], &cfg.delimiter_chars);
        let b = cfg.bonus_for(prev, class);
        out.push(b);
        prev = class;
        i += 1;
        assert(out@ =~= bonus_seq(*cfg, s@).subrange(0, i as int));
    }
    assert(out@ =~= bonus_seq(*cfg, s@));
    out
}

/// The prefix bonus for a match starting at `start`.
pub fn prefix_bonus_for(prefer: bool, start: usize) -> (r: u16)
    ensures
        r == prefix_bonus(prefer, start as int),
{
    if !prefer || start >= 2 * MAX_PREFIX_BONUS as usize {
        0
    } else {
        MAX_PREFIX_BONUS - (start / 2) as u16
    }
}

/// Scores the run that starts with a match at `start` and covers
/// `start..end`; appends the matched positions to `indices` when asked.
pub fn calculate_score(
    prefer_prefix: bool,
    hs: &Vec<char>,
    bs: &Vec<u16>,
    ns: &Vec<char>,
    start: usize,
    end: usize,
    with_indices: bool,
    indices: &mut Vec<u32>,
) -> (r: u16)
    requires
        start < end <= hs@.len(),
        hs@.len() == bs@.len(),
        hs@.len() <= u32::MAX,
        small_bonuses(bs@),
        ns@.len() >= 1,
        hs@[start as int] == ns@[0],
    ensures
        r == window_score(prefer_prefix, hs@, bs@, ns@, start as int, end as int),
        with_indices ==> final(indices)@ == old(indices)@ + idx_u32(
            run_to(hs@, bs@, ns@, start as int, end as int).idx,
        ),
        !with_indices ==> final(indices)@ == old(indices)@,
{
    let ghost old_indices = indices@;
    let first = bs[start];
    let mut score: u16 = SCORE_MATCH + BONUS_FIRST_CHAR_MULTIPLIER * first;
    let mut j: usize = 1;
    let mut run = true;
    let mut first_bonus: u16 = 0;
    let mut in_gap = false;
    if with_indices {
        indices.push(start as u32);
    }
    let mut i: usize = start + 1;
    proof {
        assert(idx_u32(seq![start as int]) =~= seq![start as u32]);
    }
    while i < end
        invariant
            start < i <= end <= hs@.len(),
            hs@.len() == bs@.len(),
            hs@.len() <= u32::MAX,
            small_bonuses(bs@),
            ns@.len() >= 1,
            ({
                let st = run_to(hs@, bs@, ns@, start as int, i as int);
                &&& st.score == score
                &&& st.j == j
                &&& st.run == run
                &&& st.first_bonus == first_bonus
                &&& st.in_gap == in_gap
                &&& first_bonus <= MAX_BOUNDARY_BONUS
                &&& with_indices ==> indices@ == old_indices + idx_u32(st.idx)
                &&& !with_indices ==> indices@ == old_indices
            }),
        decreases end - i,
    {
        let ghost before = run_to(hs@, bs@, ns@, start as int, i as int);
        let c = hs[i];
        let b = bs[i];
        if j < ns.len() {
            if c == ns[j] {
                let fb = if run {
                    if b >= BONUS_BOUNDARY && b > first_bonus {
                        b
                    } else {
                        first_bonus
                    }
                } else {
                    b
                };
                let bonus = if run {
                    let m = if b >= fb {
                        b
                    } else {
                        fb
                    };
                    if m >= BONUS_CONSECUTIVE {
                        m
                    } else {
                        BONUS_CONSECUTIVE
                    }
                } else {
                    b
                };
                score = score.saturating_add(SCORE_MATCH + bonus);
                j = j + 1;
                run = true;
                first_bonus = fb;
                in_gap = false;
                if with_indices {
                    indices.push(i as u32);
                }
                proof {
                    assert(idx_u32(before.idx.push(i as int)) =~= idx_u32(before.idx).push(
                        i as u32,
                    ));
                }
            } else {
                let penalty = if in_gap {
                    PENALTY_GAP_EXTENSION
                } else {
                    PENALTY_GAP_START
                };
                score = score.saturating_sub(penalty);
                run = false;
                in_gap = true;
            }
        }
        i += 1;
    }
    score.saturating_add(prefix_bonus_for(prefer_prefix, start))
}

} // verus!
