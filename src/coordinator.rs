//! The decisions of the background matching coordinator: the order of
//! results, the final trimming of a pass, and what each tick does. The
//! threads, locks and the item store that carry these out live outside
//! this library.
use vstd::prelude::*;
use rayon::slice::ParallelSliceMut;

verus! {

/// Index that marks a result that did not match in the last pass.
pub const TOMBSTONE: u32 = u32::MAX;

/// A scored item.
#[derive(Clone, Copy, Debug, PartialEq, Eq, Structural)]
pub struct Match {
    pub score: u32,
    pub idx: u32,
}

/// Total length of the columns of item `idx` (0 when unknown).
pub open spec fn len_of(lens: Seq<u32>, idx: u32) -> u32 {
    if idx < lens.len() {
        lens[idx as int]
    } else {
        0
    }
}

/// Whether `a` comes before `b`: matched items first, by score (higher
/// first), then total length (shorter first), then index (earlier first).
pub open spec fn key_before(a: Match, b: Match, lens: Seq<u32>) -> bool {
    if a.idx == TOMBSTONE || b.idx == TOMBSTONE {
        a.idx != TOMBSTONE && b.idx == TOMBSTONE
    } else if a.score != b.score {
        a.score > b.score
    } else if len_of(lens, a.idx) != len_of(lens, b.idx) {
        len_of(lens, a.idx) < len_of(lens, b.idx)
    } else {
        a.idx < b.idx
    }
}

/// Whether no element comes before an earlier one.
pub open spec fn sorted_by_key(s: Seq<Match>, lens: Seq<u32>) -> bool {
    forall|i: int, j: int| 0 <= i < j < s.len() ==> !key_before(#[trigger] s[j], #[trigger] s[i], lens)
}

/// Whether `s` holds no tombstone.
pub open spec fn no_tombstones(s: Seq<Match>) -> bool {
    forall|i: int| 0 <= i < s.len() ==> (#[trigger] s[i]).idx != TOMBSTONE
}

fn len_for(lens: &Vec<u32>, idx: u32) -> (r: u32)
    ensures
        r == len_of(lens@, idx),
{
    if (idx as usize) < lens.len() {
        lens[idx as usize]
    } else {
        0
    }
}

/// Compares two results by the result order.
pub fn compare_matches(a: &Match, b: &Match, lens: &Vec<u32>) -> (r: std::cmp::Ordering)
    ensures
        (r == std::cmp::Ordering::Less) == key_before(*a, *b, lens@),
        (r == std::cmp::Ordering::Greater) == key_before(*b, *a, lens@),
{
    if a.idx == TOMBSTONE || b.idx == TOMBSTONE {
        if a.idx != TOMBSTONE {
            return std::cmp::Ordering::Less;
        } else if b.idx != TOMBSTONE {
            return std::cmp::Ordering::Greater;
        } else {
            return std::cmp::Ordering::Equal;
        }
    }
    if a.score != b.score {
        return if a.score > b.score {
            std::cmp::Ordering::Less
        } else {
            std::cmp::Ordering::Greater
        };
    }
    let la = len_for(lens, a.idx);
    let lb = len_for(lens, b.idx);
    if la != lb {
        return if la < lb {
            std::cmp::Ordering::Less
        } else {
            std::cmp::Ordering::Greater
        };
    }
    if a.idx < b.idx {
        std::cmp::Ordering::Less
    } else if a.idx > b.idx {
        std::cmp::Ordering::Greater
    } else {
        std::cmp::Ordering::Equal
    }
}

/// Relies on rayon's `par_sort_unstable_by`: sorts in parallel by the
/// comparator, which here is a total order; the elements are permuted.
#[verifier::external_body]
fn par_sort_matches(v: &mut Vec<Match>, lens: &Vec<u32>)
    ensures
        final(v)@.to_multiset() == old(v)@.to_multiset(),
        sorted_by_key(final(v)@, lens@),
{
    v.par_sort_unstable_by(|a, b| compare_matches(a, b, lens))
}

/// Sorts the results of a pass by the result order and drops the results
/// that did not match: what remains is sorted and holds no tombstone.
pub fn sort_and_trim(matches: &mut Vec<Match>, lens: &Vec<u32>)
    ensures
        sorted_by_key(final(matches)@, lens@),
        no_tombstones(final(matches)@),
        exists|s: Seq<Match>|
            #![trigger s.to_multiset()]
            s.to_multiset() == old(matches)@.to_multiset() && sorted_by_key(s, lens@)
                && final(matches)@ == s.subrange(0, final(matches)@.len() as int) && forall|i: int|
                final(matches)@.len() <= i < s.len() ==> (#[trigger] s[i]).idx == TOMBSTONE,
{
    par_sort_matches(matches, lens);
    let ghost sorted = matches@;
    while matches.len() > 0 && matches[matches.len() - 1].idx == TOMBSTONE
        invariant
            sorted_by_key(sorted, lens@),
            matches@.len() <= sorted.len(),
            matches@ == sorted.subrange(0, matches@.len() as int),
            forall|i: int| matches@.len() <= i < sorted.len() ==> (#[trigger] sorted[i]).idx == TOMBSTONE,
        decreases matches@.len(),
    {
        let ghost n = matches@.len();
        matches.pop();
        assert(matches@ =~= sorted.subrange(0, matches@.len() as int));
    }
    proof {
        assert forall|i: int| 0 <= i < matches@.len() implies (#[trigger] matches@[i]).idx != TOMBSTONE by {
            let last = matches@.len() - 1;
            if matches@[i].idx == TOMBSTONE && i < last {
                assert(sorted[i] == matches@[i]);
                assert(sorted[last] == matches@[last]);
                assert(!key_before(sorted[last], sorted[i], lens@));
            }
        }
        assert forall|i: int, j: int| 0 <= i < j < matches@.len() implies !key_before(
            #[trigger] matches@[j],
            #[trigger] matches@[i],
            lens@,
        ) by {
            assert(sorted[i] == matches@[i]);
            assert(sorted[j] == matches@[j]);
        }
    }
}

/// The results a full rescore starts from: every index below `n` that is
/// not in flight, with score 0, in index order.
pub open spec fn seeded(n: nat, in_flight: Seq<u32>) -> Seq<Match>
    decreases n,
{
    if n == 0 {
        Seq::empty()
    } else {
        let rest = seeded((n - 1) as nat, in_flight);
        if in_flight.contains((n - 1) as u32) {
            rest
        } else {
            rest.push(Match { score: 0, idx: (n - 1) as u32 })
        }
    }
}

/// Seeds a full rescore with the items seen so far that are not in flight.
pub fn seed_matches(last_snapshot: u32, in_flight: &Vec<u32>) -> (r: Vec<Match>)
    ensures
        r@ == seeded(last_snapshot as nat, in_flight@),
{
    let mut out: Vec<Match> = Vec::new();
    let mut i: u32 = 0;
    while i < last_snapshot
        invariant
            i <= last_snapshot,
            out@ == seeded(i as nat, in_flight@),
        decreases last_snapshot - i,
    {
        let mut found = false;
        let mut k: usize = 0;
        while k < in_flight.len()
            invariant
                k <= in_flight@.len(),
                found == exists|q: int| 0 <= q < k && in_flight@[q] == i,
            decreases in_flight@.len() - k,
        {
            if in_flight[k] == i {
                found = true;
            }
            k += 1;
        }
        proof {
            assert(found == in_flight@.contains(i)) by {
                if in_flight@.contains(i) {
                    let q = choose|q: int| 0 <= q < in_flight@.len() && in_flight@[q] == i;
                    assert(0 <= q < k);
                }
            }
        }
        if !found {
            out.push(Match { score: 0, idx: i });
        }
        i += 1;
    }
    out
}

/// Number of items a worker has scored: those seen, less those in flight.
pub fn worker_item_count(last_snapshot: u32, in_flight: usize) -> (r: u32)
    requires
        in_flight <= last_snapshot,
    ensures
        r == last_snapshot - in_flight,
{
    last_snapshot - in_flight as u32
}

/// The results of a pass for an empty pattern: every item that is
/// present, score 0, in index order.
pub open spec fn present_matches(present: Seq<bool>) -> Seq<Match>
    decreases present.len(),
{
    if present.len() == 0 {
        Seq::empty()
    } else {
        let rest = present_matches(present.drop_last());
        if present.last() {
            rest.push(Match { score: 0, idx: (present.len() - 1) as u32 })
        } else {
            rest
        }
    }
}

/// Every present item matches an empty pattern with score 0.
pub fn trivial_matches(present: &Vec<bool>) -> (r: Vec<Match>)
    requires
        present@.len() <= u32::MAX,
    ensures
        r@ == present_matches(present@),
{
    let mut out: Vec<Match> = Vec::new();
    let mut i: usize = 0;
    while i < present.len()
        invariant
            i <= present@.len() <= u32::MAX,
            out@ == present_matches(present@.subrange(0, i as int)),
        decreases present@.len() - i,
    {
        proof {
            assert(present@.subrange(0, i + 1).drop_last() =~= present@.subrange(0, i as int));
        }
        if present[i] {
            out.push(Match { score: 0, idx: i as u32 });
        }
        i += 1;
    }
    assert(present@.subrange(0, i as int) =~= present@);
    out
}

/// The result of rescoring `m`: its new score, or a tombstone when it no
/// longer matches.
pub open spec fn rescored_match(m: Match, score: Option<u32>) -> Match {
    match score {
        Some(s) => Match { score: s, idx: m.idx },
        None => Match { score: 0, idx: TOMBSTONE },
    }
}

/// The results of the new items of a pass, in order: an item that was
/// written gets its score, or a tombstone when it does not match; an item
/// still in flight (`None`) gets nothing.
pub open spec fn fresh_matches(fresh: Seq<(u32, Option<Option<u32>>)>) -> Seq<Match>
    decreases fresh.len(),
{
    if fresh.len() == 0 {
        Seq::empty()
    } else {
        let rest = fresh_matches(fresh.drop_last());
        match fresh.last().1 {
            None => rest,
            Some(None) => rest.push(Match { score: 0, idx: TOMBSTONE }),
            Some(Some(s)) => rest.push(Match { score: s, idx: fresh.last().0 }),
        }
    }
}

/// The new items of a pass that are still in flight, in order.
pub open spec fn fresh_in_flight(fresh: Seq<(u32, Option<Option<u32>>)>) -> Seq<u32>
    decreases fresh.len(),
{
    if fresh.len() == 0 {
        Seq::empty()
    } else {
        let rest = fresh_in_flight(fresh.drop_last());
        match fresh.last().1 {
            None => rest.push(fresh.last().0),
            _ => rest,
        }
    }
}

/// Combines the outcomes of a pass. When the pattern changed, each earlier
/// result takes its new score from `rescored` (a tombstone when it stopped
/// matching); otherwise the earlier results stay. The new items follow (see
/// `fresh_matches`). Returns the results and the items still in flight.
pub fn finish_pass(
    status: crate::multi_pattern::Status,
    matches: Vec<Match>,
    rescored: Vec<Option<u32>>,
    fresh: Vec<(u32, Option<Option<u32>>)>,
) -> (r: (Vec<Match>, Vec<u32>))
    requires
        status != crate::multi_pattern::Status::Unchanged ==> rescored@.len() == matches@.len(),
    ensures
        status != crate::multi_pattern::Status::Unchanged ==> r.0@ == Seq::new(
            matches@.len(),
            |k: int| rescored_match(matches@[k], rescored@[k]),
        ) + fresh_matches(fresh@),
        status == crate::multi_pattern::Status::Unchanged ==> r.0@ == matches@ + fresh_matches(
            fresh@,
        ),
        r.1@ == fresh_in_flight(fresh@),
{
    let mut out: Vec<Match> = Vec::new();
    let changed = match status {
        crate::multi_pattern::Status::Unchanged => false,
        _ => true,
    };
    let mut k: usize = 0;
    let ghost base = if changed {
        Seq::new(matches@.len(), |k: int| rescored_match(matches@[k], rescored@[k]))
    } else {
        matches@
    };
    while k < matches.len()
        invariant
            k <= matches@.len(),
            changed ==> rescored@.len() == matches@.len(),
            base.len() == matches@.len(),
            changed ==> base == Seq::new(
                matches@.len(),
                |k: int| rescored_match(matches@[k], rescored@[k]),
            ),
            !changed ==> base == matches@,
            out@ == base.subrange(0, k as int),
        decreases matches@.len() - k,
    {
        let m = matches[k];
        let next = if changed {
            match rescored[k] {
                Some(s) => Match { score: s, idx: m.idx },
                None => Match { score: 0, idx: TOMBSTONE },
            }
        } else {
            m
        };
        out.push(next);
        k += 1;
        assert(out@ =~= base.subrange(0, k as int));
    }
    assert(base.subrange(0, k as int) =~= base);
    let mut waiting: Vec<u32> = Vec::new();
    let mut i: usize = 0;
    while i < fresh.len()
        invariant
            i <= fresh@.len(),
            out@ == base + fresh_matches(fresh@.subrange(0, i as int)),
            waiting@ == fresh_in_flight(fresh@.subrange(0, i as int)),
        decreases fresh@.len() - i,
    {
        proof {
            assert(fresh@.subrange(0, i + 1).drop_last() =~= fresh@.subrange(0, i as int));
        }
        let (idx, outcome) = fresh[i];
        match outcome {
            None => {
                waiting.push(idx);
            },
            Some(None) => {
                out.push(Match { score: 0, idx: TOMBSTONE });
            },
            Some(Some(s)) => {
                out.push(Match { score: s, idx });
            },
        }
        i += 1;
        proof {
            assert(out@ =~= base + fresh_matches(fresh@.subrange(0, i as int)));
        }
    }
    assert(fresh@.subrange(0, i as int) =~= fresh@);
    (out, waiting)
}

/// Life cycle of the coordinator's item store.
#[derive(Clone, Copy, Debug, PartialEq, Eq, Structural)]
pub enum State {
    /// Nothing has run yet.
    Init,
    /// The store was replaced; the snapshot and the worker are out of date.
    Cleared,
    /// The worker runs on the current store.
    Fresh,
}

impl State {
    /// References to the store that the coordinator itself holds.
    pub fn matcher_item_refs(self) -> (r: usize)
        ensures
            r == if self is Cleared {
                1usize
            } else {
                2usize
            },
    {
        match self {
            State::Cleared => 1,
            State::Init | State::Fresh => 2,
        }
    }

    /// Whether a pass that is under way must be abandoned.
    pub fn canceled(self) -> (r: bool)
        ensures
            r == !(self is Fresh),
    {
        !matches!(self, State::Fresh)
    }

    /// Whether the worker must be handed the new store.
    pub fn cleared(self) -> (r: bool)
        ensures
            r == !(self is Fresh),
    {
        !matches!(self, State::Fresh)
    }
}

/// What a tick reports.
#[derive(Clone, Copy, Debug, PartialEq, Eq, Structural)]
pub struct Status {
    /// The snapshot changed.
    pub changed: bool,
    /// A pass is running.
    pub running: bool,
}

/// What one step of a tick does, once it knows whether it got the worker.
#[derive(Clone, Copy, Debug, PartialEq, Eq, Structural)]
pub struct TickStep {
    pub status: Status,
    /// Copy the worker's results into the snapshot.
    pub publish: bool,
    /// Start a new pass.
    pub spawn: bool,
    /// Ask the worker to notify when its pass ends.
    pub notify: bool,
    /// Hand the worker the current store.
    pub hand_over_store: bool,
}

/// Whether a tick must cancel the running pass: the pattern changed or the
/// store was replaced.
pub fn tick_cancels(pattern_changed: bool, state: State) -> (r: bool)
    ensures
        r == (pattern_changed || !(state is Fresh)),
{
    pattern_changed || state.canceled()
}

/// One step of a tick. `locked` says whether the worker lock was obtained
/// (a canceling step always waits for it); `worker_running` and
/// `worker_was_canceled` describe the worker's last pass; `item_count` and
/// `worker_item_count` are the store's count and the count the worker saw.
pub fn tick_step(
    canceled: bool,
    locked: bool,
    worker_running: bool,
    worker_was_canceled: bool,
    state: State,
    item_count: u32,
    worker_item_count: u32,
) -> (r: TickStep)
    ensures
        !canceled && !locked ==> r == (TickStep {
            status: Status { changed: false, running: true },
            publish: false,
            spawn: false,
            notify: true,
            hand_over_store: false,
        }),
        canceled || locked ==> {
            let running = canceled || item_count > worker_item_count;
            r == (TickStep {
                status: Status { changed: worker_running, running },
                publish: worker_running && !worker_was_canceled && state is Fresh,
                spawn: running,
                notify: running && !canceled,
                hand_over_store: running && !(state is Fresh),
            })
        },
{
    if !canceled && !locked {
        return TickStep {
            status: Status { changed: false, running: true },
            publish: false,
            spawn: false,
            notify: true,
            hand_over_store: false,
        };
    }
    let running = canceled || item_count > worker_item_count;
    TickStep {
        status: Status { changed: worker_running, running },
        publish: worker_running && !worker_was_canceled && !state.canceled(),
        spawn: running,
        notify: running && !canceled,
        hand_over_store: running && state.cleared(),
    }
}

/// The status of a tick that canceled: the second, non-canceling step
/// decides whether a pass runs; the snapshot changed if either step
/// changed it.
pub fn combine_ticks(first: Status, second: Status) -> (r: Status)
    ensures
        r == (Status { changed: first.changed || second.changed, running: second.running }),
{
    Status { changed: first.changed || second.changed, running: second.running }
}

} // verus!
