//! Optimal fuzzy matching: a dynamic program over needle rows and haystack
//! columns, and the walk back through it that recovers the match positions.
//!
//! Columns are counted from `start`, the first occurrence of the first
//! needle character; row `j` begins at `offs[j]`, the leftmost column where
//! the first `j + 1` needle characters can have matched.
use vstd::prelude::*;

use crate::config::{
    BONUS_BOUNDARY, BONUS_CONSECUTIVE, BONUS_FIRST_CHAR_MULTIPLIER, PENALTY_GAP_EXTENSION,
    PENALTY_GAP_START, SCORE_MATCH,
};
use crate::score::{max16, prefix_bonus, prefix_bonus_for, small_bonuses, valid_indices};
use crate::search::{absent_from, embeds_from, first_from, lemma_embeds_absent, lemma_embeds_skip};

verus! {

/// Largest haystack window the matrix covers.
pub const MAX_HAYSTACK_LEN: usize = 2048;

/// Largest number of matrix cells.
pub const MAX_MATRIX_CELLS: usize = 100 * 1024;

/// Whether a window of `w` columns and `m` rows fits the matrix bounds.
pub open spec fn fits(w: int, m: int) -> bool {
    0 < w <= MAX_HAYSTACK_LEN && m <= MAX_MATRIX_CELLS as int / w
}

/// `offs` are the row starts: each needle character at its leftmost
/// position after the previous one, counted from `start`.
pub open spec fn first_offsets(hs: Seq<char>, ns: Seq<char>, start: int, offs: Seq<usize>) -> bool {
    let w = hs.len() - start;
    &&& offs.len() == ns.len()
    &&& offs.len() > 0
    &&& offs[0] == 0
    &&& forall|j: int| 0 <= j < offs.len() ==> (#[trigger] offs[j]) < w
    &&& forall|j: int|
        1 <= j < offs.len() ==> offs[j - 1] < #[trigger] offs[j] && first_from(
            hs,
            ns[j],
            start + offs[j - 1] + 1,
            start + offs[j],
        )
}

/// A cell of the first row, from the cell to its left.
pub open spec fn step_first(
    prefer: bool,
    hs: Seq<char>,
    bs: Seq<u16>,
    n0: char,
    start: int,
    c: int,
    prev: u16,
    in_gap: bool,
) -> (u16, usize) {
    let gap = prev.saturating_sub(
        if in_gap {
            PENALTY_GAP_EXTENSION
        } else {
            PENALTY_GAP_START
        },
    );
    let matched = (SCORE_MATCH + BONUS_FIRST_CHAR_MULTIPLIER * bs[start + c] + prefix_bonus(
        prefer,
        start + c,
    )) as u16;
    if hs[start + c] == n0 && matched >= gap {
        (matched, 1)
    } else {
        (gap, 0)
    }
}

/// The bonus a run of `k` matches ending at column `c` of row `j` keeps:
/// the bonus where it began, none when it began with the first needle
/// character.
pub open spec fn run_bonus(bs: Seq<u16>, start: int, j: int, c: int, k: int) -> u16 {
    if k > j || k > c + 1 {
        0
    } else {
        bs[start + c + 1 - k]
    }
}

/// A cell of row `j > 0` at column `c`, from the cell to its left (score
/// `prev`, `in_gap`) and the cell diagonally above (`diag`): the better of
/// a gap and a match that extends, restarts or breaks a run.
pub open spec fn step_cell(
    bs: Seq<u16>,
    start: int,
    j: int,
    c: int,
    prev: u16,
    in_gap: bool,
    diag: (u16, usize),
    matches: bool,
) -> (u16, usize) {
    let score_hor = prev.saturating_sub(
        if in_gap {
            PENALTY_GAP_EXTENSION
        } else {
            PENALTY_GAP_START
        },
    );
    if !matches {
        (score_hor, 0)
    } else {
        let base = diag.0.saturating_add(SCORE_MATCH);
        let own = bs[start + c];
        let k0: int = if diag.1 >= j {
            j + 1
        } else {
            diag.1 + 1
        };
        let fb = run_bonus(bs, start, j, c, k0);
        let k1: int = if k0 > 1 && own > fb && own >= BONUS_BOUNDARY {
            1
        } else {
            k0
        };
        let bonus = if k0 > 1 {
            if own > fb {
                if own >= BONUS_BOUNDARY {
                    own
                } else {
                    max16(own, BONUS_CONSECUTIVE)
                }
            } else {
                max16(fb, BONUS_CONSECUTIVE)
            }
        } else {
            own
        };
        let with_bonus = base.saturating_add(bonus);
        if with_bonus < score_hor || (k1 == 1 && with_bonus == score_hor) {
            (max16(base.saturating_add(own), score_hor), 0)
        } else {
            (max16(with_bonus, score_hor), k1 as usize)
        }
    }
}

/// Score and run length of the cell in row `j`, column `c`.
#[verifier::opaque]
pub open spec fn dp(
    prefer: bool,
    hs: Seq<char>,
    bs: Seq<u16>,
    ns: Seq<char>,
    start: int,
    offs: Seq<usize>,
    j: int,
    c: int,
) -> (u16, usize)
    decreases j, c,
{
    if j < 0 || c < 0 {
        (0u16, 0usize)
    } else if j == 0 {
        let prev = if c > 0 {
            dp(prefer, hs, bs, ns, start, offs, 0, c - 1)
        } else {
            (0u16, 0usize)
        };
        step_first(prefer, hs, bs, ns[0], start, c, prev.0, c > 0 && prev.1 == 0)
    } else {
        let prev = if c > offs[j] {
            dp(prefer, hs, bs, ns, start, offs, j, c - 1)
        } else {
            (0u16, 0usize)
        };
        let diag = if c >= 1 {
            dp(prefer, hs, bs, ns, start, offs, j - 1, c - 1)
        } else {
            (0u16, 0usize)
        };
        step_cell(bs, start, j, c, prev.0, c > offs[j] && prev.1 == 0, diag, hs[start + c] == ns[j])
    }
}

/// The best score in the last row over the columns before `c`, and the
/// first column that has it.
#[verifier::opaque]
pub open spec fn best_to(
    prefer: bool,
    hs: Seq<char>,
    bs: Seq<u16>,
    ns: Seq<char>,
    start: int,
    offs: Seq<usize>,
    c: int,
) -> (u16, int)
    decreases c,
{
    let last = ns.len() - 1;
    if c <= offs[last] {
        (0u16, offs[last] as int)
    } else {
        let before = best_to(prefer, hs, bs, ns, start, offs, c - 1);
        let s = dp(prefer, hs, bs, ns, start, offs, last, c - 1).0;
        if s > before.0 {
            (s, c - 1)
        } else {
            before
        }
    }
}

/// The optimal fuzzy score: the best cell of the last row.
pub open spec fn optimal_score(
    prefer: bool,
    hs: Seq<char>,
    bs: Seq<u16>,
    ns: Seq<char>,
    start: int,
    offs: Seq<usize>,
) -> u16 {
    best_to(prefer, hs, bs, ns, start, offs, hs.len() - start).0
}

/// The matrix holds the cells of rows before `j`, and of row `j` before
/// column `c`.
pub open spec fn filled_upto(
    scores: Seq<u16>,
    cons: Seq<usize>,
    prefer: bool,
    hs: Seq<char>,
    bs: Seq<u16>,
    ns: Seq<char>,
    start: int,
    offs: Seq<usize>,
    w: int,
    j: int,
    c: int,
) -> bool {
    forall|j2: int, c2: int|
        0 <= j2 <= j && j2 < offs.len() && offs[j2] <= c2 < w && (j2 < j || c2 < c) ==> {
            let v = #[trigger] dp(prefer, hs, bs, ns, start, offs, j2, c2);
            scores[j2 * w + c2] == v.0 && cons[j2 * w + c2] == v.1
        }
}

/// Writing the next cell of a row extends the filled part of the matrix.
proof fn lemma_fill_next(
    old_scores: Seq<u16>,
    old_cons: Seq<usize>,
    scores: Seq<u16>,
    cons: Seq<usize>,
    prefer: bool,
    hs: Seq<char>,
    bs: Seq<u16>,
    ns: Seq<char>,
    start: int,
    offs: Seq<usize>,
    w: int,
    j: int,
    c: int,
)
    requires
        0 <= j < offs.len(),
        offs[j] <= c < w,
        old_scores.len() == offs.len() * w,
        old_cons.len() == offs.len() * w,
        filled_upto(old_scores, old_cons, prefer, hs, bs, ns, start, offs, w, j, c),
        scores == old_scores.update(j * w + c, dp(prefer, hs, bs, ns, start, offs, j, c).0),
        cons == old_cons.update(j * w + c, dp(prefer, hs, bs, ns, start, offs, j, c).1),
    ensures
        filled_upto(scores, cons, prefer, hs, bs, ns, start, offs, w, j, c + 1),
{
    assert forall|j2: int, c2: int|
        0 <= j2 <= j && j2 < offs.len() && offs[j2] <= c2 < w && (j2 < j || c2 < c + 1) implies {
        let v2 = #[trigger] dp(prefer, hs, bs, ns, start, offs, j2, c2);
        scores[j2 * w + c2] == v2.0 && cons[j2 * w + c2] == v2.1
    } by {
        lemma_cell_in_matrix(j2, c2, offs.len() as int, w);
        lemma_cell_in_matrix(j, c, offs.len() as int, w);
        if j2 != j || c2 != c {
            lemma_cell_distinct(j2, c2, j, c, w);
        }
    }
}

/// A cell's place lies inside the matrix.
proof fn lemma_cell_in_matrix(j: int, c: int, m: int, w: int)
    requires
        0 <= j < m,
        0 <= c < w,
    ensures
        0 <= j * w + c < m * w,
{
    assert(0 <= j * w + c < m * w) by (nonlinear_arith)
        requires
            0 <= j < m,
            0 <= c < w,
    ;
}

/// One step of the definition of a cell in a row after the first.
proof fn lemma_dp_row(
    prefer: bool,
    hs: Seq<char>,
    bs: Seq<u16>,
    ns: Seq<char>,
    start: int,
    offs: Seq<usize>,
    j: int,
    c: int,
)
    requires
        1 <= j,
        1 <= c,
    ensures
        dp(prefer, hs, bs, ns, start, offs, j, c) == step_cell(
            bs,
            start,
            j,
            c,
            if c > offs[j] {
                dp(prefer, hs, bs, ns, start, offs, j, c - 1).0
            } else {
                0u16
            },
            c > offs[j] && dp(prefer, hs, bs, ns, start, offs, j, c - 1).1 == 0,
            dp(prefer, hs, bs, ns, start, offs, j - 1, c - 1),
            hs[start + c] == ns[j],
        ),
{
    reveal(dp);
}

/// One step of the definition of a cell in the first row.
proof fn lemma_dp_first(
    prefer: bool,
    hs: Seq<char>,
    bs: Seq<u16>,
    ns: Seq<char>,
    start: int,
    offs: Seq<usize>,
    c: int,
)
    requires
        0 <= c,
    ensures
        dp(prefer, hs, bs, ns, start, offs, 0, c) == step_first(
            prefer,
            hs,
            bs,
            ns[0],
            start,
            c,
            if c > 0 {
                dp(prefer, hs, bs, ns, start, offs, 0, c - 1).0
            } else {
                0u16
            },
            c > 0 && dp(prefer, hs, bs, ns, start, offs, 0, c - 1).1 == 0,
        ),
{
    reveal(dp);
}

/// One step of the best cell of the last row.
proof fn lemma_best_step(
    prefer: bool,
    hs: Seq<char>,
    bs: Seq<u16>,
    ns: Seq<char>,
    start: int,
    offs: Seq<usize>,
    c: int,
)
    requires
        ns.len() >= 1,
        offs.len() == ns.len(),
        c >= offs[ns.len() - 1],
    ensures
        best_to(prefer, hs, bs, ns, start, offs, c + 1) == ({
            let before = best_to(prefer, hs, bs, ns, start, offs, c);
            let s = dp(prefer, hs, bs, ns, start, offs, ns.len() - 1, c).0;
            if s > before.0 {
                (s, c)
            } else {
                before
            }
        }),
{
    reveal(best_to);
}

/// A filled row lets the next row start.
proof fn lemma_next_row(
    scores: Seq<u16>,
    cons: Seq<usize>,
    prefer: bool,
    hs: Seq<char>,
    bs: Seq<u16>,
    ns: Seq<char>,
    start: int,
    offs: Seq<usize>,
    w: int,
    j: int,
)
    requires
        1 <= j < offs.len(),
        filled_upto(scores, cons, prefer, hs, bs, ns, start, offs, w, j - 1, w),
    ensures
        filled_upto(scores, cons, prefer, hs, bs, ns, start, offs, w, j, offs[j] as int),
{
    assert forall|j2: int, c2: int|
        0 <= j2 <= j && j2 < offs.len() && offs[j2] <= c2 < w && (j2 < j || c2 < offs[j]) implies {
        let v2 = #[trigger] dp(prefer, hs, bs, ns, start, offs, j2, c2);
        scores[j2 * w + c2] == v2.0 && cons[j2 * w + c2] == v2.1
    } by {
        assert(j2 <= j - 1);
    }
}

/// Before the last row starts, no best cell has been seen.
proof fn lemma_best_base(
    prefer: bool,
    hs: Seq<char>,
    bs: Seq<u16>,
    ns: Seq<char>,
    start: int,
    offs: Seq<usize>,
    c: int,
)
    requires
        ns.len() >= 1,
        offs.len() == ns.len(),
        c <= offs[ns.len() - 1],
    ensures
        best_to(prefer, hs, bs, ns, start, offs, c) == (0u16, offs[ns.len() - 1] as int),
{
    reveal(best_to);
}

/// Distinct cells have distinct places in the matrix.
proof fn lemma_cell_distinct(j1: int, c1: int, j2: int, c2: int, w: int)
    requires
        0 <= j1,
        0 <= j2,
        0 <= c1 < w,
        0 <= c2 < w,
        j1 != j2 || c1 != c2,
    ensures
        j1 * w + c1 != j2 * w + c2,
{
    if j1 < j2 {
        assert(j1 * w + c1 < j2 * w + c2) by (nonlinear_arith)
            requires
                j1 < j2,
                0 <= c1 < w,
                0 <= c2,
        ;
    } else if j2 < j1 {
        assert(j2 * w + c2 < j1 * w + c1) by (nonlinear_arith)
            requires
                j2 < j1,
                0 <= c2 < w,
                0 <= c1,
        ;
    }
}

/// Index of the cell in `row` and `col` of a matrix with rows of width `w`.
fn cell(row: usize, col: usize, w: usize, m: usize) -> (r: usize)
    requires
        row < m,
        col < w,
        m * w <= MAX_MATRIX_CELLS,
    ensures
        r == row * w + col,
        r < m * w,
{
    proof {
        assert(row * w + col < m * w) by (nonlinear_arith)
            requires
                row < m,
                col < w,
        ;
        assert(row * w <= m * w) by (nonlinear_arith)
            requires
                row < m,
        ;
    }
    row * w + col
}

/// A vector of `n` copies of `x`.
fn filled<T: Copy>(x: T, n: usize) -> (r: Vec<T>)
    ensures
        r@.len() == n,
{
    let mut v: Vec<T> = Vec::new();
    let mut i: usize = 0;
    while i < n
        invariant
            i <= n,
            v@.len() == i,
        decreases n - i,
    {
        v.push(x);
        i += 1;
    }
    v
}

/// The larger of two scores.
fn max_score(a: u16, b: u16) -> (r: u16)
    ensures
        r == max16(a, b),
{
    if a >= b {
        a
    } else {
        b
    }
}

/// A cell of the first row (see `step_first`).
fn first_cell(
    prefer: bool,
    hs: &Vec<char>,
    bs: &Vec<u16>,
    n0: char,
    start: usize,
    c: usize,
    prev: u16,
    in_gap: bool,
) -> (r: (u16, usize))
    requires
        start + c < hs@.len(),
        hs@.len() == bs@.len(),
        hs@.len() <= u32::MAX,
        small_bonuses(bs@),
    ensures
        r == step_first(prefer, hs@, bs@, n0, start as int, c as int, prev, in_gap),
{
    let penalty = if in_gap {
        PENALTY_GAP_EXTENSION
    } else {
        PENALTY_GAP_START
    };
    let gap = prev.saturating_sub(penalty);
    let b = bs[start + c];
    assert(b <= crate::config::MAX_BOUNDARY_BONUS);
    let matched = SCORE_MATCH + BONUS_FIRST_CHAR_MULTIPLIER * b + prefix_bonus_for(prefer, start + c);
    if hs[start + c] == n0 && matched >= gap {
        (matched, 1)
    } else {
        (gap, 0)
    }
}

/// A cell of a row after the first (see `step_cell`).
fn next_cell(
    bs: &Vec<u16>,
    start: usize,
    j: usize,
    c: usize,
    prev: u16,
    in_gap: bool,
    diag_score: u16,
    diag_cons: usize,
    matches: bool,
) -> (r: (u16, usize))
    requires
        start + c < bs@.len(),
        bs@.len() <= u32::MAX,
        1 <= j < u32::MAX,
        small_bonuses(bs@),
    ensures
        r == step_cell(
            bs@,
            start as int,
            j as int,
            c as int,
            prev,
            in_gap,
            (diag_score, diag_cons),
            matches,
        ),
{
    let penalty = if in_gap {
        PENALTY_GAP_EXTENSION
    } else {
        PENALTY_GAP_START
    };
    let score_hor = prev.saturating_sub(penalty);
    if !matches {
        return (score_hor, 0);
    }
    let base = diag_score.saturating_add(SCORE_MATCH);
    let own = bs[start + c];
    let mut bonus = own;
    let mut consecutive = if diag_cons >= j {
        j + 1
    } else {
        diag_cons + 1
    };
    if consecutive > 1 {
        // a run that began with the first needle character keeps no bonus
        let first_bonus = if consecutive > j || consecutive > c + 1 {
            0
        } else {
            bs[start + c + 1 - consecutive]
        };
        if bonus > first_bonus {
            if bonus >= BONUS_BOUNDARY {
                consecutive = 1;
            } else {
                bonus = max_score(bonus, BONUS_CONSECUTIVE);
            }
        } else {
            bonus = max_score(first_bonus, BONUS_CONSECUTIVE);
        }
    }
    let with_bonus = base.saturating_add(bonus);
    if with_bonus < score_hor || (consecutive == 1 && with_bonus == score_hor) {
        (max_score(base.saturating_add(own), score_hor), 0)
    } else {
        (max_score(with_bonus, score_hor), consecutive)
    }
}

/// The row starts (see `first_offsets`).
fn row_offsets(hs: &Vec<char>, ns: &Vec<char>, start: usize) -> (r: Vec<usize>)
    requires
        start < hs@.len() <= u32::MAX,
        ns@.len() >= 1,
        hs@[start as int] == ns@[0],
        embeds_from(hs@, ns@, start + 1, 1),
    ensures
        first_offsets(hs@, ns@, start as int, r@),
{
    let w = hs.len() - start;
    let mut offs: Vec<usize> = Vec::new();
    offs.push(0);
    let mut j: usize = 1;
    while j < ns.len()
        invariant
            start + w == hs@.len(),
            hs@.len() <= u32::MAX,
            1 <= j <= ns@.len(),
            offs@.len() == j,
            offs@[0] == 0,
            forall|k: int| 0 <= k < offs@.len() ==> (#[trigger] offs@[k]) < w,
            forall|k: int|
                1 <= k < offs@.len() ==> offs@[k - 1] < #[trigger] offs@[k] && first_from(
                    hs@,
                    ns@[k],
                    start + offs@[k - 1] + 1,
                    start + offs@[k],
                ),
            embeds_from(hs@, ns@, start + offs@[j - 1] + 1, j as int),
        decreases ns@.len() - j,
    {
        let from = offs[j - 1] + 1;
        let mut p = from;
        while p < w
            invariant
                from <= p <= w,
                j < ns@.len(),
                start + w == hs@.len(),
                hs@.len() <= u32::MAX,
                forall|q: int| start + from <= q < start + p ==> hs@[q] != ns@[j as int],
            ensures
                from <= p <= w,
                forall|q: int| start + from <= q < start + p ==> hs@[q] != ns@[j as int],
                p < w ==> hs@[start + p] == ns@[j as int],
            decreases w - p,
        {
            if hs[start + p] == ns[j] {
                break ;
            }
            p += 1;
        }
        if p == w {
            proof {
                assert(absent_from(hs@, ns@[j as int], start + from));
                lemma_embeds_absent(hs@, ns@, start + from, j as int);
            }
            assert(false);
        }
        proof {
            assert(first_from(hs@, ns@[j as int], start + from, start + p));
            lemma_embeds_skip(hs@, ns@, start + from, j as int, start + p);
        }
        offs.push(p);
        j += 1;
    }
    offs
}

/// Fills the first row.
fn fill_first_row(
    prefer: bool,
    hs: &Vec<char>,
    bs: &Vec<u16>,
    ns: &Vec<char>,
    start: usize,
    offs: &Vec<usize>,
    w: usize,
    m: usize,
    scores: &mut Vec<u16>,
    cons: &mut Vec<usize>,
)
    requires
        start + w == hs@.len(),
        hs@.len() <= u32::MAX,
        hs@.len() == bs@.len(),
        small_bonuses(bs@),
        m == ns@.len(),
        m >= 1,
        m * w <= MAX_MATRIX_CELLS,
        old(scores)@.len() == m * w,
        old(cons)@.len() == m * w,
        first_offsets(hs@, ns@, start as int, offs@),
    ensures
        final(scores)@.len() == m * w,
        final(cons)@.len() == m * w,
        filled_upto(
            final(scores)@,
            final(cons)@,
            prefer,
            hs@,
            bs@,
            ns@,
            start as int,
            offs@,
            w as int,
            0,
            w as int,
        ),
{
    let mut in_gap = false;
    let mut prev: u16 = 0;
    let mut c: usize = 0;
    while c < w
        invariant
            c <= w,
            start + w == hs@.len(),
            hs@.len() <= u32::MAX,
            hs@.len() == bs@.len(),
            small_bonuses(bs@),
            m == ns@.len(),
            m >= 1,
            m * w <= MAX_MATRIX_CELLS,
            scores@.len() == m * w,
            cons@.len() == m * w,
            first_offsets(hs@, ns@, start as int, offs@),
            filled_upto(scores@, cons@, prefer, hs@, bs@, ns@, start as int, offs@, w as int, 0, c as int),
            prev == if c > 0 {
                dp(prefer, hs@, bs@, ns@, start as int, offs@, 0, c - 1).0
            } else {
                0u16
            },
            in_gap == (c > 0 && dp(prefer, hs@, bs@, ns@, start as int, offs@, 0, c - 1).1 == 0),
        decreases w - c,
    {
        let (score, k) = first_cell(prefer, hs, bs, ns[0], start, c, prev, in_gap);
        proof {
            lemma_dp_first(prefer, hs@, bs@, ns@, start as int, offs@, c as int);
        }
        let ghost v = dp(prefer, hs@, bs@, ns@, start as int, offs@, 0, c as int);
        assert(v == (score, k));
        let at = cell(0, c, w, m);
        let ghost old_scores = scores@;
        let ghost old_cons = cons@;
        scores.set(at, score);
        cons.set(at, k);
        proof {
            lemma_fill_next(
                old_scores,
                old_cons,
                scores@,
                cons@,
                prefer,
                hs@,
                bs@,
                ns@,
                start as int,
                offs@,
                w as int,
                0,
                c as int,
            );
        }
        prev = score;
        in_gap = k == 0;
        c += 1;
    }
}

/// Fills row `j > 0`, and tracks the best cell when it is the last row.
#[verifier::rlimit(100)]
fn fill_row(
    prefer: bool,
    hs: &Vec<char>,
    bs: &Vec<u16>,
    ns: &Vec<char>,
    start: usize,
    offs: &Vec<usize>,
    w: usize,
    m: usize,
    j: usize,
    scores: &mut Vec<u16>,
    cons: &mut Vec<usize>,
) -> (r: (u16, usize))
    requires
        start + w == hs@.len(),
        hs@.len() <= u32::MAX,
        hs@.len() == bs@.len(),
        small_bonuses(bs@),
        m == ns@.len(),
        1 <= j < m,
        m * w <= MAX_MATRIX_CELLS,
        old(scores)@.len() == m * w,
        old(cons)@.len() == m * w,
        offs@.len() == m,
        m <= MAX_MATRIX_CELLS,
        offs@[j - 1] < offs@[j as int] < w,
        offs@[m - 1] < w,
        filled_upto(
            old(scores)@,
            old(cons)@,
            prefer,
            hs@,
            bs@,
            ns@,
            start as int,
            offs@,
            w as int,
            j as int,
            offs@[j as int] as int,
        ),
    ensures
        final(scores)@.len() == m * w,
        final(cons)@.len() == m * w,
        filled_upto(
            final(scores)@,
            final(cons)@,
            prefer,
            hs@,
            bs@,
            ns@,
            start as int,
            offs@,
            w as int,
            j as int,
            w as int,
        ),
        j == m - 1 ==> (r.0, r.1 as int) == best_to(
            prefer,
            hs@,
            bs@,
            ns@,
            start as int,
            offs@,
            w as int,
        ),
{
    let off = offs[j];
    assert(offs@[j - 1] < off);
    assert(offs@[m - 1] < w);
    let mut best: u16 = 0;
    let mut best_end: usize = offs[m - 1];
    proof {
        if j == m - 1 {
            lemma_best_base(prefer, hs@, bs@, ns@, start as int, offs@, off as int);
        }
    }
    let mut in_gap = false;
    let mut prev_score: u16 = 0;
    let mut c = off;
    while c < w
        invariant
            1 <= j < m,
            off == offs@[j as int],
            1 <= off <= c <= w,
            start + w == hs@.len(),
            hs@.len() <= u32::MAX,
            hs@.len() == bs@.len(),
            small_bonuses(bs@),
            m == ns@.len(),
            m * w <= MAX_MATRIX_CELLS,
            scores@.len() == m * w,
            cons@.len() == m * w,
            offs@.len() == m,
            m <= MAX_MATRIX_CELLS,
            offs@[j - 1] < off,
            offs@[m - 1] < w,
            filled_upto(scores@, cons@, prefer, hs@, bs@, ns@, start as int, offs@, w as int, j as int, c as int),
            prev_score == if c > off {
                dp(prefer, hs@, bs@, ns@, start as int, offs@, j as int, c - 1).0
            } else {
                0u16
            },
            in_gap == (c > off && dp(prefer, hs@, bs@, ns@, start as int, offs@, j as int, c - 1).1 == 0),
            j == m - 1 ==> (best, best_end as int) == best_to(
                prefer,
                hs@,
                bs@,
                ns@,
                start as int,
                offs@,
                c as int,
            ),
        decreases w - c,
    {
        let d = cell(j - 1, c - 1, w, m);
        assert(offs@[j - 1] <= c - 1);
        let ghost diag = dp(prefer, hs@, bs@, ns@, start as int, offs@, j - 1, c - 1);
        let diag_score = scores[d];
        let diag_cons = cons[d];
        assert(diag == (diag_score, diag_cons));
        let matches = hs[start + c] == ns[j];
        let (score, consecutive) = next_cell(
            bs,
            start,
            j,
            c,
            prev_score,
            in_gap,
            diag_score,
            diag_cons,
            matches,
        );
        proof {
            lemma_dp_row(prefer, hs@, bs@, ns@, start as int, offs@, j as int, c as int);
        }
        let ghost v = dp(prefer, hs@, bs@, ns@, start as int, offs@, j as int, c as int);
        assert(v == (score, consecutive));
        proof {
            if j == m - 1 {
                lemma_best_step(prefer, hs@, bs@, ns@, start as int, offs@, c as int);
            }
        }
        if j == m - 1 && score > best {
            best = score;
            best_end = c;
        }
        let at = cell(j, c, w, m);
        let ghost old_scores = scores@;
        let ghost old_cons = cons@;
        scores.set(at, score);
        cons.set(at, consecutive);
        proof {
            lemma_fill_next(
                old_scores,
                old_cons,
                scores@,
                cons@,
                prefer,
                hs@,
                bs@,
                ns@,
                start as int,
                offs@,
                w as int,
                j as int,
                c as int,
            );
        }
        in_gap = consecutive == 0;
        prev_score = score;
        c += 1;
    }
    (best, best_end)
}

/// A cell of the matrix as the walk back reads it: its value inside its
/// row, zero outside.
pub open spec fn cell_at(
    prefer: bool,
    hs: Seq<char>,
    bs: Seq<u16>,
    ns: Seq<char>,
    start: int,
    offs: Seq<usize>,
    w: int,
    r: int,
    c: int,
) -> (u16, usize) {
    if 0 <= r < offs.len() && offs[r] <= c < w {
        dp(prefer, hs, bs, ns, start, offs, r, c)
    } else {
        (0u16, 0usize)
    }
}

/// The walk back (§ backtracking): from cell (`row`, `col`), take the
/// column as the match of needle character `row` when the cell holds that
/// character and its score beats the diagonal and the cell to its left (or
/// ties it inside a run), then move left; `rev` holds the positions taken,
/// last needle character first.
pub open spec fn walk(
    prefer: bool,
    hs: Seq<char>,
    bs: Seq<u16>,
    ns: Seq<char>,
    start: int,
    offs: Seq<usize>,
    w: int,
    row: int,
    col: int,
    prefer_match: bool,
    rev: Seq<u32>,
) -> Seq<u32>
    decreases col,
{
    if row < 0 || col < 0 || row >= offs.len() {
        rev
    } else {
        let here = cell_at(prefer, hs, bs, ns, start, offs, w, row, col);
        let score_diag = if row > 0 && col > 0 {
            cell_at(prefer, hs, bs, ns, start, offs, w, row - 1, col - 1).0
        } else {
            0u16
        };
        let score_horz = if col > offs[row] {
            cell_at(prefer, hs, bs, ns, start, offs, w, row, col - 1).0
        } else {
            0u16
        };
        let in_block = here.1 > 1 || (col + 1 < w && row + 1 < offs.len() && col + 1 >= offs[row
            + 1] && cell_at(prefer, hs, bs, ns, start, offs, w, row + 1, col + 1).1 > 1);
        let take = hs[start + col] == ns[row] && here.0 > score_diag && (here.0 > score_horz
            || in_block || (prefer_match && here.0 == score_horz));
        let rev2 = if take {
            rev.push((start + col) as u32)
        } else {
            rev
        };
        let row2 = if take {
            row - 1
        } else {
            row
        };
        if (take && row == 0) || col == 0 {
            rev2
        } else {
            walk(
                prefer,
                hs,
                bs,
                ns,
                start,
                offs,
                w,
                row2,
                col - 1,
                cell_at(prefer, hs, bs, ns, start, offs, w, row2, col - 1).1 != 0,
                rev2,
            )
        }
    }
}

/// The positions of the optimal path: the walk back from the best cell of
/// the last row, first needle character first; empty when the walk does
/// not reach the first row.
pub open spec fn optimal_path(
    prefer: bool,
    hs: Seq<char>,
    bs: Seq<u16>,
    ns: Seq<char>,
    start: int,
    offs: Seq<usize>,
) -> Seq<u32> {
    let w = hs.len() - start;
    let rev = walk(
        prefer,
        hs,
        bs,
        ns,
        start,
        offs,
        w,
        ns.len() - 1,
        best_to(prefer, hs, bs, ns, start, offs, w).1,
        true,
        Seq::empty(),
    );
    if rev.len() == ns.len() {
        rev.reverse()
    } else {
        Seq::empty()
    }
}

/// Reads a cell as the walk back does.
fn read_cell(
    offs: &Vec<usize>,
    w: usize,
    m: usize,
    scores: &Vec<u16>,
    cons: &Vec<usize>,
    row: usize,
    col: usize,
) -> (r: (u16, usize))
    requires
        offs@.len() == m,
        row < m,
        col < w,
        m * w <= MAX_MATRIX_CELLS,
        scores@.len() == m * w,
        cons@.len() == m * w,
    ensures
        offs@[row as int] <= col ==> r == (scores@[row * w + col], cons@[row * w + col]),
        offs@[row as int] > col ==> r == (0u16, 0usize),
{
    if col < offs[row] {
        (0, 0)
    } else {
        let at = cell(row, col, w, m);
        (scores[at], cons[at])
    }
}

/// Walks back from the best end of the last row to the first row,
/// preferring matches that extend runs (see `walk`); `None` when the walk
/// does not reach the first row.
fn walk_back(
    prefer: bool,
    hs: &Vec<char>,
    bs: &Vec<u16>,
    ns: &Vec<char>,
    start: usize,
    offs: &Vec<usize>,
    w: usize,
    m: usize,
    scores: &Vec<u16>,
    cons: &Vec<usize>,
    best_end: usize,
) -> (r: Option<Vec<u32>>)
    requires
        start + w == hs@.len(),
        hs@.len() <= u32::MAX,
        m == ns@.len(),
        m >= 1,
        m * w <= MAX_MATRIX_CELLS,
        scores@.len() == m * w,
        cons@.len() == m * w,
        offs@.len() == m,
        best_end < w,
        filled_upto(scores@, cons@, prefer, hs@, bs@, ns@, start as int, offs@, w as int, m - 1, w as int),
    ensures
        ({
            let rev = walk(
                prefer,
                hs@,
                bs@,
                ns@,
                start as int,
                offs@,
                w as int,
                m - 1,
                best_end as int,
                true,
                Seq::empty(),
            );
            &&& r is Some <==> rev.len() == m
            &&& r matches Some(idx) ==> idx@ == rev.reverse()
        }),
        r matches Some(idx) ==> valid_indices(hs@, ns@, idx@),
{
    let ghost whole = walk(
        prefer,
        hs@,
        bs@,
        ns@,
        start as int,
        offs@,
        w as int,
        m - 1,
        best_end as int,
        true,
        Seq::empty(),
    );
    let mut rev: Vec<u32> = Vec::new();
    let mut row = m - 1;
    let mut col = best_end;
    let mut prefer_match = true;
    loop
        invariant_except_break
            row < m,
            col < w,
            rev@.len() == m - 1 - row,
            forall|t: int|
                0 <= t < rev@.len() ==> start + col < #[trigger] rev@[t] < hs@.len() && hs@[rev@[t] as int]
                    == ns@[m - 1 - t],
            forall|a: int, b: int| 0 <= a < b < rev@.len() ==> #[trigger] rev@[a] > #[trigger] rev@[b],
            whole == walk(
                prefer,
                hs@,
                bs@,
                ns@,
                start as int,
                offs@,
                w as int,
                row as int,
                col as int,
                prefer_match,
                rev@,
            ),
        invariant
            start + w == hs@.len(),
            hs@.len() <= u32::MAX,
            m == ns@.len(),
            m * w <= MAX_MATRIX_CELLS,
            scores@.len() == m * w,
            cons@.len() == m * w,
            offs@.len() == m,
            filled_upto(scores@, cons@, prefer, hs@, bs@, ns@, start as int, offs@, w as int, m - 1, w as int),
        ensures
            rev@.len() <= m,
            forall|t: int|
                0 <= t < rev@.len() ==> #[trigger] rev@[t] < hs@.len() && hs@[rev@[t] as int]
                    == ns@[m - 1 - t],
            forall|a: int, b: int| 0 <= a < b < rev@.len() ==> #[trigger] rev@[a] > #[trigger] rev@[b],
            rev@ == whole,
        decreases col,
    {
        let ghost g = |r: int, c: int| cell_at(prefer, hs@, bs@, ns@, start as int, offs@, w as int, r, c);
        let here = read_cell(offs, w, m, scores, cons, row, col);
        assert(here == g(row as int, col as int));
        let score = here.0;
        let score_diag = if row > 0 && col > 0 {
            let d = read_cell(offs, w, m, scores, cons, row - 1, col - 1);
            assert(d == g(row - 1, col - 1));
            d.0
        } else {
            0
        };
        let score_horz = if col > offs[row] {
            let hz = read_cell(offs, w, m, scores, cons, row, col - 1);
            assert(hz == g(row as int, col - 1));
            hz.0
        } else {
            0
        };
        let mut in_block = here.1 > 1;
        if !in_block && col + 1 < w && row + 1 < m && col + 1 >= offs[row + 1] {
            let nx = read_cell(offs, w, m, scores, cons, row + 1, col + 1);
            assert(nx == g(row + 1, col + 1));
            in_block = nx.1 > 1;
        }
        if hs[start + col] == ns[row] && score > score_diag && (score > score_horz || in_block || (
        prefer_match && score == score_horz)) {
            rev.push((start + col) as u32);
            if row == 0 {
                break ;
            }
            row -= 1;
        }
        if col == 0 {
            break ;
        }
        col -= 1;
        let pm = read_cell(offs, w, m, scores, cons, row, col);
        assert(pm == g(row as int, col as int));
        prefer_match = pm.1 != 0;
    }
    if rev.len() != m {
        return None;
    }
    let mut idx: Vec<u32> = Vec::new();
    let mut k: usize = 0;
    while k < m
        invariant
            k <= m,
            m == ns@.len(),
            rev@.len() == m,
            hs@.len() <= u32::MAX,
            idx@.len() == k,
            forall|t: int| 0 <= t < k ==> idx@[t] == rev@[m - 1 - t],
        decreases m - k,
    {
        idx.push(rev[m - 1 - k]);
        k += 1;
    }
    proof {
        assert forall|a: int, b: int| 0 <= a < b < idx@.len() implies #[trigger] idx@[a]
            < #[trigger] idx@[b] by {
            assert(idx@[a] == rev@[m - 1 - a]);
            assert(idx@[b] == rev@[m - 1 - b]);
        }
        assert forall|t: int| 0 <= t < idx@.len() implies hs@[#[trigger] idx@[t] as int]
            == ns@[t] by {
            assert(idx@[t] == rev@[m - 1 - t]);
        }
        assert forall|t: int| 0 <= t < idx@.len() implies (#[trigger] idx@[t] as int)
            < hs@.len() by {
            assert(idx@[t] == rev@[m - 1 - t]);
        }
        assert(idx@ =~= rev@.reverse());
    }
    Some(idx)
}

/// Scores the best fuzzy alignment of `ns` in `hs` from `start` on, where
/// the first needle character first occurs, and recovers its positions
/// (`None` for them when the walk back fails). `None` when the matrix
/// would exceed its bounds.
pub fn fuzzy_optimal(
    prefer_prefix: bool,
    hs: &Vec<char>,
    bs: &Vec<u16>,
    ns: &Vec<char>,
    start: usize,
) -> (r: Option<(u16, Option<Vec<u32>>)>)
    requires
        hs@.len() == bs@.len(),
        hs@.len() <= u32::MAX,
        small_bonuses(bs@),
        ns@.len() >= 2,
        first_from(hs@, ns@[0], 0, start as int),
        embeds_from(hs@, ns@, start + 1, 1),
    ensures
        r is Some <==> fits(hs@.len() - start, ns@.len() as int),
        match r {
            Some(found) => {
                &&& forall|offs: Seq<usize>|
                    #[trigger] first_offsets(hs@, ns@, start as int, offs) ==> found.0
                        == optimal_score(prefer_prefix, hs@, bs@, ns@, start as int, offs)
                &&& found.1 matches Some(idx) ==> valid_indices(hs@, ns@, idx@)
                &&& forall|offs: Seq<usize>|
                    #[trigger] first_offsets(hs@, ns@, start as int, offs) ==> match found.1 {
                        Some(idx) => idx@ == optimal_path(
                            prefer_prefix,
                            hs@,
                            bs@,
                            ns@,
                            start as int,
                            offs,
                        ),
                        None => optimal_path(prefer_prefix, hs@, bs@, ns@, start as int, offs).len()
                            == 0,
                    }
            },
            None => true,
        },
{
    let len = hs.len();
    let m = ns.len();
    let w = len - start;
    if w > MAX_HAYSTACK_LEN || m > MAX_MATRIX_CELLS / w {
        return None;
    }
    proof {
        assert(m * w <= MAX_MATRIX_CELLS) by (nonlinear_arith)
            requires
                m <= MAX_MATRIX_CELLS / w,
                w > 0,
        ;
    }
    let offs = row_offsets(hs, ns, start);
    let total = m * w;
    let mut scores: Vec<u16> = filled(0u16, total);
    let mut cons: Vec<usize> = filled(0usize, total);
    fill_first_row(prefer_prefix, hs, bs, ns, start, &offs, w, m, &mut scores, &mut cons);
    let mut best: u16 = 0;
    let mut best_end: usize = 0;
    let mut j: usize = 1;
    while j < m
        invariant
            1 <= j <= m,
            start + w == hs@.len(),
            hs@.len() <= u32::MAX,
            hs@.len() == bs@.len(),
            small_bonuses(bs@),
            m == ns@.len(),
            m * w <= MAX_MATRIX_CELLS,
            scores@.len() == m * w,
            cons@.len() == m * w,
            first_offsets(hs@, ns@, start as int, offs@),
            filled_upto(scores@, cons@, prefer_prefix, hs@, bs@, ns@, start as int, offs@, w as int, (j - 1) as int, w as int),
            j == m ==> (best, best_end as int) == best_to(
                prefer_prefix,
                hs@,
                bs@,
                ns@,
                start as int,
                offs@,
                w as int,
            ),
            best_end < w,
        decreases m - j,
    {
        proof {
            lemma_next_row(
                scores@,
                cons@,
                prefer_prefix,
                hs@,
                bs@,
                ns@,
                start as int,
                offs@,
                w as int,
                j as int,
            );
            assert(offs@[j as int] > offs@[j - 1]);
            assert(offs@[m - 1] < w);
            assert(m <= MAX_MATRIX_CELLS) by (nonlinear_arith)
                requires
                    m * w <= MAX_MATRIX_CELLS,
                    w >= 1,
            ;
        }
        let (b, e) = fill_row(prefer_prefix, hs, bs, ns, start, &offs, w, m, j, &mut scores, &mut cons);
        if j == m - 1 {
            best = b;
            best_end = e;
        }
        proof {
            if j == m - 1 {
                crate::optimal::lemma_best_in_row(prefer_prefix, hs@, bs@, ns@, start as int, offs@, w as int);
            }
        }
        j += 1;
    }
    let indices = walk_back(prefer_prefix, hs, bs, ns, start, &offs, w, m, &scores, &cons, best_end);
    proof {
        assert forall|o: Seq<usize>| #[trigger] first_offsets(hs@, ns@, start as int, o) implies o
            == offs@ by {
            lemma_offsets_unique(hs@, ns@, start as int, o, offs@);
        }
    }
    Some((best, indices))
}

/// The best end lies within the last row.
proof fn lemma_best_in_row(
    prefer: bool,
    hs: Seq<char>,
    bs: Seq<u16>,
    ns: Seq<char>,
    start: int,
    offs: Seq<usize>,
    c: int,
)
    requires
        ns.len() >= 1,
        offs.len() == ns.len(),
        offs[ns.len() - 1] < c,
    ensures
        offs[ns.len() - 1] <= best_to(prefer, hs, bs, ns, start, offs, c).1 < c,
    decreases c,
{
    reveal(best_to);
    let last = ns.len() - 1;
    if c - 1 > offs[last] {
        lemma_best_in_row(prefer, hs, bs, ns, start, offs, c - 1);
    } else {
        assert(best_to(prefer, hs, bs, ns, start, offs, c - 1) == (0u16, offs[last] as int));
    }
}

/// The row starts are determined by the haystack and the needle.
pub proof fn lemma_offsets_unique(hs: Seq<char>, ns: Seq<char>, start: int, a: Seq<usize>, b: Seq<usize>)
    requires
        first_offsets(hs, ns, start, a),
        first_offsets(hs, ns, start, b),
    ensures
        a == b,
{
    assert forall|j: int| 0 <= j < a.len() implies a[j] == b[j] by {
        lemma_offsets_agree(hs, ns, start, a, b, j);
    }
    assert(a =~= b);
}

proof fn lemma_offsets_agree(hs: Seq<char>, ns: Seq<char>, start: int, a: Seq<usize>, b: Seq<usize>, j: int)
    requires
        first_offsets(hs, ns, start, a),
        first_offsets(hs, ns, start, b),
        0 <= j < a.len(),
    ensures
        a[j] == b[j],
    decreases j,
{
    if j > 0 {
        lemma_offsets_agree(hs, ns, start, a, b, j - 1);
        assert(first_from(hs, ns[j], start + a[j - 1] + 1, start + a[j]));
        assert(first_from(hs, ns[j], start + b[j - 1] + 1, start + b[j]));
    }
}


/// The first position at or after `from` that holds `c` (the length when
/// there is none).
pub open spec fn next_at(hs: Seq<char>, c: char, from: int) -> int
    decreases hs.len() - from,
{
    if from >= hs.len() {
        hs.len() as int
    } else if hs[from] == c {
        from
    } else {
        next_at(hs, c, from + 1)
    }
}

pub proof fn lemma_next_at(hs: Seq<char>, c: char, from: int)
    requires
        0 <= from,
    ensures
        next_at(hs, c, from) < hs.len() ==> first_from(hs, c, from, next_at(hs, c, from)),
        next_at(hs, c, from) >= hs.len() ==> absent_from(hs, c, from),
    decreases hs.len() - from,
{
    if from < hs.len() && hs[from] != c {
        lemma_next_at(hs, c, from + 1);
    }
}

/// The row starts of the first `j + 1` needle characters.
pub open spec fn offsets_upto(hs: Seq<char>, ns: Seq<char>, start: int, j: nat) -> Seq<usize>
    decreases j,
{
    if j == 0 {
        seq![0usize]
    } else {
        let prev = offsets_upto(hs, ns, start, (j - 1) as nat);
        prev.push((next_at(hs, ns[j as int], start + prev.last() + 1) - start) as usize)
    }
}

proof fn lemma_offsets_upto(hs: Seq<char>, ns: Seq<char>, start: int, j: nat)
    requires
        0 <= start < hs.len() <= u32::MAX,
        j < ns.len(),
        hs[start] == ns[0],
        embeds_from(hs, ns, start + 1, 1),
    ensures
        ({
            let offs = offsets_upto(hs, ns, start, j);
            &&& offs.len() == j + 1
            &&& offs[0] == 0
            &&& forall|k: int| 0 <= k < offs.len() ==> (#[trigger] offs[k]) < hs.len() - start
            &&& forall|k: int|
                1 <= k < offs.len() ==> offs[k - 1] < #[trigger] offs[k] && first_from(
                    hs,
                    ns[k],
                    start + offs[k - 1] + 1,
                    start + offs[k],
                )
            &&& embeds_from(hs, ns, start + offs[j as int] + 1, j + 1 as int)
        }),
    decreases j,
{
    if j > 0 {
        lemma_offsets_upto(hs, ns, start, (j - 1) as nat);
        let prev = offsets_upto(hs, ns, start, (j - 1) as nat);
        let from = start + prev.last() + 1;
        lemma_next_at(hs, ns[j as int], from);
        if next_at(hs, ns[j as int], from) >= hs.len() {
            lemma_embeds_absent(hs, ns, from, j as int);
        }
        let p = next_at(hs, ns[j as int], from);
        lemma_embeds_skip(hs, ns, from, j as int, p);
        let offs = offsets_upto(hs, ns, start, j);
        assert(offs == prev.push((p - start) as usize));
        assert forall|k: int|
            1 <= k < offs.len() implies offs[k - 1] < #[trigger] offs[k] && first_from(
            hs,
            ns[k],
            start + offs[k - 1] + 1,
            start + offs[k],
        ) by {
            if k < j {
                assert(offs[k] == prev[k] && offs[k - 1] == prev[k - 1]);
            }
        }
    }
}

/// Every fuzzy match whose first needle character first occurs at `start`
/// has row starts: the dynamic program's inputs exist, and (by
/// `lemma_offsets_unique`) are unique.
pub proof fn lemma_offsets_exist(hs: Seq<char>, ns: Seq<char>, start: int)
    requires
        0 <= start < hs.len() <= u32::MAX,
        ns.len() >= 1,
        first_from(hs, ns[0], 0, start),
        embeds_from(hs, ns, start + 1, 1),
    ensures
        first_offsets(hs, ns, start, offsets_upto(hs, ns, start, (ns.len() - 1) as nat)),
{
    lemma_offsets_upto(hs, ns, start, (ns.len() - 1) as nat);
}

} // verus!
