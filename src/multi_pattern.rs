//! One pattern per matcher column, with the least work each column needs
//! since the last matching pass.
use vstd::prelude::*;

use crate::matcher::Matcher;
use crate::pattern::{
    atom_passes, lemma_pattern_total_case, parsed_pattern, pattern_total, with_case, AtomView,
    CaseMatching, Pattern,
};
use crate::search::embeds_from;
use crate::utf32_str::text_chars;
use crate::utf32_string::Utf32String;

verus! {

/// What a column needs since the last matching pass, least first.
#[derive(Clone, Copy, Debug, PartialEq, Eq, Structural)]
pub enum Status {
    /// Nothing changed.
    Unchanged,
    /// The pattern only got narrower: old matches need rescoring, and no
    /// other item can start matching.
    Update,
    /// Everything must be scored again.
    Rescore,
}

impl Status {
    pub open spec fn rank(self) -> nat {
        match self {
            Status::Unchanged => 0,
            Status::Update => 1,
            Status::Rescore => 2,
        }
    }
}

/// The status of a column after it is reparsed: an appended pattern whose
/// last atom was positive (or that had none) needs an update, unless the
/// column already needed a rescore; anything else needs a rescore.
pub open spec fn status_after(old_status: Status, old_atoms: Seq<AtomView>, append: bool) -> Status {
    if append && old_status != Status::Rescore && (old_atoms.len() == 0
        || !old_atoms.last().negative) {
        Status::Update
    } else {
        Status::Rescore
    }
}

/// The patterns of the columns of a matcher.
#[derive(Clone, Debug)]
pub struct MultiPattern {
    patterns: Vec<Pattern>,
    statuses: Vec<Status>,
}

impl MultiPattern {
    pub closed spec fn wf(&self) -> bool {
        &&& self.patterns@.len() == self.statuses@.len()
        &&& forall|c: int| 0 <= c < self.patterns@.len() ==> (#[trigger] self.patterns@[c]).wf()
    }

    /// Number of columns.
    pub closed spec fn columns(&self) -> nat {
        self.patterns@.len()
    }

    /// The atoms of column `c`.
    pub closed spec fn atoms_of(&self, c: int) -> Seq<AtomView> {
        self.patterns@[c].atom_views()
    }

    /// The status of column `c`.
    pub closed spec fn status_of(&self, c: int) -> Status {
        self.statuses@[c]
    }

    /// `columns` empty patterns, all unchanged.
    pub fn new(columns: usize) -> (r: MultiPattern)
        ensures
            r.wf(),
            r.columns() == columns,
            forall|c: int|
                0 <= c < columns ==> r.atoms_of(c).len() == 0 && #[trigger] r.status_of(c)
                    == Status::Unchanged,
    {
        let mut patterns: Vec<Pattern> = Vec::new();
        let mut statuses: Vec<Status> = Vec::new();
        let mut i: usize = 0;
        while i < columns
            invariant
                i <= columns,
                patterns@.len() == i,
                statuses@.len() == i,
                forall|c: int|
                    0 <= c < i ==> (#[trigger] patterns@[c]).atoms@.len() == 0 && statuses@[c]
                        == Status::Unchanged,
            decreases columns - i,
        {
            let ghost old_patterns = patterns@;
            let ghost old_statuses = statuses@;
            let empty: Vec<crate::pattern::Atom> = Vec::new();
            patterns.push(Pattern { atoms: empty });
            statuses.push(Status::Unchanged);
            assert forall|c: int| 0 <= c <= i implies (#[trigger] patterns@[c]).atoms@.len() == 0
                && statuses@[c] == Status::Unchanged by {
                if c < i {
                    assert(patterns@[c] == old_patterns[c]);
                    assert(statuses@[c] == old_statuses[c]);
                }
            }
            i += 1;
        }
        let r = MultiPattern { patterns, statuses };
        assert forall|c: int| 0 <= c < columns implies r.atoms_of(c).len() == 0 && #[trigger] r.status_of(c)
            == Status::Unchanged by {
            assert(r.patterns@[c].atoms@.len() == 0);
            assert(r.statuses@[c] == Status::Unchanged);
        }
        r
    }

    /// Reparses column `column` from `new_text`. With `append` the caller
    /// promises that the previous text of the column is a prefix of
    /// `new_text`.
    pub fn reparse(
        &mut self,
        column: usize,
        new_text: &str,
        case_matching: CaseMatching,
        append: bool,
    )
        requires
            old(self).wf(),
            column < old(self).columns(),
        ensures
            final(self).wf(),
            final(self).columns() == old(self).columns(),
            final(self).atoms_of(column as int) == parsed_pattern(
                text_chars(new_text@),
                case_matching,
            ),
            final(self).status_of(column as int) == status_after(
                old(self).status_of(column as int),
                old(self).atoms_of(column as int),
                append,
            ),
            forall|c: int|
                0 <= c < old(self).columns() && c != column ==> #[trigger] final(self).atoms_of(c)
                    == old(self).atoms_of(c) && final(self).status_of(c) == old(self).status_of(c),
    {
        let old_status = self.statuses[column];
        let pat = &self.patterns[column];
        let n = pat.atoms.len();
        let last_positive = if n == 0 {
            true
        } else {
            !pat.atoms[n - 1].is_negative()
        };
        proof {
            if n > 0 {
                assert(pat.atom_views().last() == pat.atoms@[n - 1]@);
            }
        }
        let status = if append && old_status != Status::Rescore && last_positive {
            Status::Update
        } else {
            Status::Rescore
        };
        self.statuses.set(column, status);
        let fresh = Pattern::parse(case_matching, new_text);
        self.patterns.set(column, fresh);
    }

    /// The pattern of column `column`.
    pub fn column_pattern(&self, column: usize) -> (r: &Pattern)
        requires
            column < self.columns(),
        ensures
            r.atom_views() == self.atoms_of(column as int),
    {
        &self.patterns[column]
    }

    /// The most work any column needs.
    pub fn status(&self) -> (r: Status)
        requires
            self.wf(),
        ensures
            forall|c: int| 0 <= c < self.columns() ==> #[trigger] self.status_of(c).rank() <= r.rank(),
            r == Status::Unchanged || exists|c: int|
                0 <= c < self.columns() && #[trigger] self.status_of(c) == r,
    {
        let mut best = Status::Unchanged;
        let mut i: usize = 0;
        while i < self.statuses.len()
            invariant
                self.wf(),
                i <= self.statuses@.len(),
                forall|c: int| 0 <= c < i ==> #[trigger] self.statuses@[c].rank() <= best.rank(),
                best == Status::Unchanged || exists|c: int|
                    0 <= c < i && #[trigger] self.statuses@[c] == best,
            decreases self.statuses@.len() - i,
        {
            let s = self.statuses[i];
            let more = match (s, best) {
                (Status::Rescore, Status::Rescore) => false,
                (Status::Rescore, _) => true,
                (Status::Update, Status::Unchanged) => true,
                _ => false,
            };
            if more {
                best = s;
            }
            i += 1;
        }
        proof {
            if best != Status::Unchanged {
                let c = choose|c: int| 0 <= c < i && #[trigger] self.statuses@[c] == best;
                assert(self.status_of(c) == best);
            }
        }
        best
    }

    /// Marks every column unchanged.
    pub fn reset_status(&mut self)
        requires
            old(self).wf(),
        ensures
            final(self).wf(),
            final(self).columns() == old(self).columns(),
            forall|c: int|
                0 <= c < old(self).columns() ==> #[trigger] final(self).status_of(c)
                    == Status::Unchanged && final(self).atoms_of(c) == old(self).atoms_of(c),
    {
        let mut i: usize = 0;
        while i < self.statuses.len()
            invariant
                self.patterns@ == old(self).patterns@,
                self.statuses@.len() == old(self).statuses@.len(),
                old(self).wf(),
                i <= self.statuses@.len(),
                forall|c: int| 0 <= c < i ==> #[trigger] self.statuses@[c] == Status::Unchanged,
            decreases self.statuses@.len() - i,
        {
            self.statuses.set(i, Status::Unchanged);
            i += 1;
        }
    }

    /// Whether no column has an atom.
    pub fn is_empty(&self) -> (r: bool)
        requires
            self.wf(),
        ensures
            r == forall|c: int| 0 <= c < self.columns() ==> #[trigger] self.atoms_of(c).len() == 0,
    {
        let mut i: usize = 0;
        while i < self.patterns.len()
            invariant
                i <= self.patterns@.len(),
                forall|c: int| 0 <= c < i ==> #[trigger] self.atoms_of(c).len() == 0,
            decreases self.patterns@.len() - i,
        {
            if self.patterns[i].atoms.len() != 0 {
                assert(self.atoms_of(i as int).len() != 0);
                return false;
            }
            i += 1;
        }
        true
    }

    /// The sum of the column patterns' scores over the item's columns, or
    /// `None` when a column rejects it.
    pub fn score(&self, haystack: &Vec<Utf32String>, matcher: &mut Matcher) -> (r: Option<u32>)
        requires
            self.wf(),
            old(matcher).config.wf(),
            forall|c: int|
                0 <= c < haystack@.len() ==> (#[trigger] haystack@[c]).wf() && haystack@[c]@.len()
                    <= u32::MAX,
        ensures
            final(matcher).config == with_case(old(matcher).config, final(matcher).config.ignore_case),
            r is Some <==> forall|c: int, k: int|
                0 <= c < self.columns() && c < haystack@.len() && 0 <= k < self.atoms_of(c).len()
                    ==> atom_passes(old(matcher).config, #[trigger] self.atoms_of(c)[k], haystack@[c].spec_is_ascii(), haystack@[c]@),
            r is Some ==> exists|totals: Seq<u32>|
                totals.len() == min_len(self.columns(), haystack@.len()) && (forall|c: int|
                    0 <= c < totals.len() ==> pattern_total(
                        old(matcher).config,
                        self.atoms_of(c),
                        haystack@[c]@,
                        #[trigger] totals[c],
                    )) && r->0 == column_total(totals),
    {
        let ghost cfg = matcher.config;
        let ghost totals: Seq<u32> = Seq::empty();
        let mut total: u32 = 0;
        let mut c: usize = 0;
        let n = if self.patterns.len() < haystack.len() {
            self.patterns.len()
        } else {
            haystack.len()
        };
        while c < n
            invariant
                self.wf(),
                n <= self.patterns@.len(),
                n <= haystack@.len(),
                c <= n,
                matcher.config == with_case(cfg, matcher.config.ignore_case),
                cfg == old(matcher).config,
                cfg.wf(),
                forall|q: int|
                    0 <= q < haystack@.len() ==> (#[trigger] haystack@[q]).wf() && haystack@[q]@.len()
                        <= u32::MAX,
                totals.len() == c,
                forall|q: int|
                    0 <= q < c ==> pattern_total(cfg, self.atoms_of(q), haystack@[q]@, #[trigger] totals[q]),
                total == column_total(totals),
                n == min_len(self.columns(), haystack@.len()),
                forall|q: int, k: int|
                    0 <= q < c && 0 <= k < self.atoms_of(q).len() ==> atom_passes(
                        cfg,
                        #[trigger] self.atoms_of(q)[k],
                        haystack@[q].spec_is_ascii(), haystack@[q]@,
                    ),
            decreases n - c,
        {
            let h = haystack[c].as_utf32_str();
            let pat = &self.patterns[c];
            assert(pat.wf());
            let ghost before = matcher.config;
            let res = pat.score(h, matcher);
            proof {
                assert(matcher.config == with_case(cfg, matcher.config.ignore_case));
                assert forall|k: int| 0 <= k < pat.atoms@.len() implies atom_passes(before, #[trigger] pat.atoms@[k]@, h.spec_is_ascii(), h@)
                    == atom_passes(cfg, pat.atoms@[k]@, h.spec_is_ascii(), h@) by {
                    assert(with_case(before, pat.atoms@[k]@.ignore_case) == with_case(
                        cfg,
                        pat.atoms@[k]@.ignore_case,
                    ));
                }
            }
            match res {
                Some(s) => {
                    proof {
                        lemma_pattern_total_case(cfg, before.ignore_case, pat.atom_views(), h@, s);
                        assert(pat.atom_views() == self.atoms_of(c as int));
                        let old_totals = totals;
                        totals = totals.push(s);
                        assert(totals.drop_last() == old_totals);
                        assert forall|q: int| 0 <= q < c + 1 implies pattern_total(
                            cfg,
                            self.atoms_of(q),
                            haystack@[q]@,
                            #[trigger] totals[q],
                        ) by {
                            if q < c {
                                assert(totals[q] == old_totals[q]);
                            }
                        }
                    }
                    total = total.saturating_add(s);
                    proof {
                        assert forall|q: int, k: int|
                            0 <= q < c + 1 && 0 <= k < self.atoms_of(q).len() implies atom_passes(
                            cfg,
                            #[trigger] self.atoms_of(q)[k],
                            haystack@[q].spec_is_ascii(), haystack@[q]@,
                        ) by {
                            if q == c {
                                assert(self.atoms_of(q)[k] == pat.atoms@[k]@);
                            }
                        }
                    }
                },
                None => {
                    proof {
                        let k = choose|k: int|
                            0 <= k < pat.atoms@.len() && !atom_passes(
                                before,
                                #[trigger] pat.atoms@[k]@,
                                h.spec_is_ascii(), h@,
                            );
                        assert(self.atoms_of(c as int)[k] == pat.atoms@[k]@);
                        assert(!atom_passes(cfg, self.atoms_of(c as int)[k], haystack@[c as int].spec_is_ascii(), haystack@[c as int]@));
                    }
                    return None;
                },
            }
            c += 1;
        }
        Some(total)
    }
}

/// The smaller of two lengths.
pub open spec fn min_len(a: nat, b: nat) -> nat {
    if a < b {
        a
    } else {
        b
    }
}

/// The sum of the columns' scores, saturating at the largest `u32`.
pub open spec fn column_total(totals: Seq<u32>) -> u32
    decreases totals.len(),
{
    if totals.len() == 0 {
        0
    } else {
        column_total(totals.drop_last()).saturating_add(totals.last())
    }
}

/// A needle whose prefix embeds wherever it does: extending a needle can
/// only remove matches.
pub proof fn lemma_prefix_embeds(hs: Seq<char>, long: Seq<char>, short: Seq<char>, i: int, j: int)
    requires
        short.len() <= long.len(),
        short == long.subrange(0, short.len() as int),
        0 <= i,
        0 <= j,
        embeds_from(hs, long, i, j),
    ensures
        embeds_from(hs, short, i, j),
    decreases hs.len() - i,
{
    if j < short.len() && i < hs.len() {
        assert(short[j] == long[j]);
        if hs[i] == long[j] {
            lemma_prefix_embeds(hs, long, short, i + 1, j + 1);
        } else {
            lemma_prefix_embeds(hs, long, short, i + 1, j);
        }
    }
}

/// Extending a fuzzy needle can only remove matches: every haystack that
/// matches the longer needle matches its prefix. This is why an appended
/// pattern needs an update and not a rescore.
pub proof fn law_extended_needle_narrows(
    cfg: crate::config::MatcherConfig,
    h: Seq<char>,
    short: Seq<char>,
    long: Seq<char>,
)
    requires
        0 < short.len() <= long.len(),
        short == long.subrange(0, short.len() as int),
        crate::matcher::fuzzy_some(cfg, h, long),
    ensures
        crate::matcher::fuzzy_some(cfg, h, short),
{
    let ns_long = crate::score::norm_seq(cfg, long);
    let ns_short = crate::score::norm_seq(cfg, short);
    assert(ns_short =~= ns_long.subrange(0, ns_short.len() as int));
    lemma_prefix_embeds(crate::score::norm_seq(cfg, h), ns_long, ns_short, 0, 0);
}

} // verus!
