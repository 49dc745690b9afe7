use nucleo::multi_pattern::Status as PatternStatus;
use nucleo::coordinator::{
    combine_ticks, compare_matches, finish_pass, seed_matches, sort_and_trim, tick_cancels, tick_step, trivial_matches,
    worker_item_count, Match, State, Status, TOMBSTONE,
};
use std::cmp::Ordering;

#[test]
fn result_order() {
    let lens = vec![5, 3, 3, 9];
    let a = Match { score: 10, idx: 0 };
    let b = Match { score: 10, idx: 1 };
    let c = Match { score: 10, idx: 2 };
    let d = Match { score: 20, idx: 3 };
    let t = Match { score: 99, idx: TOMBSTONE };
    assert_eq!(compare_matches(&d, &a, &lens), Ordering::Less);
    assert_eq!(compare_matches(&b, &a, &lens), Ordering::Less);
    assert_eq!(compare_matches(&b, &c, &lens), Ordering::Less);
    assert_eq!(compare_matches(&t, &a, &lens), Ordering::Greater);
    assert_eq!(compare_matches(&a, &a, &lens), Ordering::Equal);
}

#[test]
fn sorted_snapshot_has_no_tombstones() {
    let lens = vec![4, 4, 2, 4, 1];
    let mut matches = vec![
        Match { score: 1, idx: 0 },
        Match { score: 0, idx: TOMBSTONE },
        Match { score: 7, idx: 1 },
        Match { score: 7, idx: 2 },
        Match { score: 0, idx: TOMBSTONE },
        Match { score: 1, idx: 4 },
        Match { score: 3, idx: 3 },
    ];
    sort_and_trim(&mut matches, &lens);
    let idx: Vec<u32> = matches.iter().map(|m| m.idx).collect();
    assert_eq!(idx, vec![2, 1, 3, 4, 0]);
}

#[test]
fn rescore_seeds_skip_in_flight() {
    let seeded = seed_matches(5, &vec![1, 3]);
    let idx: Vec<u32> = seeded.iter().map(|m| m.idx).collect();
    assert_eq!(idx, vec![0, 2, 4]);
    assert!(seeded.iter().all(|m| m.score == 0));
    assert_eq!(worker_item_count(5, 2), 3);
}

#[test]
fn tick_decisions() {
    assert!(tick_cancels(true, State::Fresh));
    assert!(tick_cancels(false, State::Cleared));
    assert!(!tick_cancels(false, State::Fresh));
    assert_eq!(State::Cleared.matcher_item_refs(), 1);
    assert_eq!(State::Fresh.matcher_item_refs(), 2);
    let busy = tick_step(false, false, true, false, State::Fresh, 10, 5);
    assert_eq!(busy.status, Status { changed: false, running: true });
    assert!(busy.notify && !busy.spawn);
    let done = tick_step(false, true, true, false, State::Fresh, 10, 10);
    assert_eq!(done.status, Status { changed: true, running: false });
    assert!(done.publish && !done.spawn);
    let more = tick_step(false, true, false, false, State::Fresh, 12, 10);
    assert!(more.spawn && more.status.running && !more.publish);
    let restarted = tick_step(true, true, true, false, State::Cleared, 0, 1000);
    assert!(!restarted.publish && restarted.spawn && restarted.hand_over_store && !restarted.notify);
    let combined = combine_ticks(Status { changed: true, running: true }, Status { changed: false, running: false });
    assert_eq!(combined, Status { changed: true, running: false });
}

#[test]
fn pass_outcomes() {

    let earlier = vec![Match { score: 5, idx: 0 }, Match { score: 7, idx: 2 }];
    let fresh = vec![(3, Some(Some(9))), (4, None), (5, Some(None)), (6, Some(Some(1)))];
    let (matches, in_flight) =
        finish_pass(PatternStatus::Update, earlier.clone(), vec![Some(8), None], fresh.clone());
    assert_eq!(
        matches,
        vec![
            Match { score: 8, idx: 0 },
            Match { score: 0, idx: TOMBSTONE },
            Match { score: 9, idx: 3 },
            Match { score: 0, idx: TOMBSTONE },
            Match { score: 1, idx: 6 },
        ]
    );
    assert_eq!(in_flight, vec![4]);
    let (kept, _) = finish_pass(PatternStatus::Unchanged, earlier.clone(), vec![], vec![]);
    assert_eq!(kept, earlier);
    let trivial = trivial_matches(&vec![true, false, true]);
    assert_eq!(trivial, vec![Match { score: 0, idx: 0 }, Match { score: 0, idx: 2 }]);
}
