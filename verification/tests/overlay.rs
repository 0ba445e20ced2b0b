use gatefs::overlay::{collapse, collapse_latest, OverlayEffect};

#[test]
fn latest_order_wins() {
    let entries = vec![
        (3, OverlayEffect::Value("c")),
        (1, OverlayEffect::Value("a")),
        (2, OverlayEffect::Value("b")),
    ];
    assert_eq!(collapse_latest(entries), Some("c"));
}

#[test]
fn later_tombstone_hides_value() {
    let entries = vec![(1, OverlayEffect::Value(10)), (5, OverlayEffect::Tombstone)];
    assert_eq!(collapse_latest(entries), None);
    let entries = vec![(5, OverlayEffect::Tombstone), (6, OverlayEffect::Value(10))];
    assert_eq!(collapse_latest(entries), Some(10));
}

#[test]
fn equal_orders_keep_input_order() {
    let entries = vec![
        (4, OverlayEffect::Value("first")),
        (4, OverlayEffect::Value("second")),
        (2, OverlayEffect::Value("older")),
    ];
    assert_eq!(collapse_latest(entries), Some("second"));
    let entries = vec![(4, OverlayEffect::Value("first")), (4, OverlayEffect::Tombstone)];
    assert_eq!(collapse_latest(entries), None);
    let entries = vec![(4, OverlayEffect::Tombstone), (4, OverlayEffect::Value("last"))];
    assert_eq!(collapse_latest(entries), Some("last"));
}

#[test]
fn empty_overlay_has_no_value() {
    let entries: Vec<(u64, OverlayEffect<u32>)> = Vec::new();
    assert_eq!(collapse_latest(entries), None);
}

#[test]
fn collapse_folds_in_order_of_keys() {
    let entries = vec![
        (30, OverlayEffect::Value(vec![3])),
        (10, OverlayEffect::Value(vec![1])),
        (20, OverlayEffect::Tombstone),
        (10, OverlayEffect::Value(vec![2])),
    ];
    // Record the effects in the order merge sees them, a tombstone as 0.
    let folded = collapse(entries, |state: Option<Vec<u32>>, effect| {
        let mut seen = state.unwrap_or_default();
        match effect {
            OverlayEffect::Value(values) => seen.extend(values),
            OverlayEffect::Tombstone => seen.push(0),
        }
        Some(seen)
    });
    assert_eq!(folded, Some(vec![1, 2, 0, 3]));
}

#[test]
fn collapse_starts_from_no_value() {
    let entries = vec![(1, OverlayEffect::Value(5u32))];
    let first_state = collapse(entries, |state: Option<u32>, _effect| match state {
        None => Some(100),
        Some(v) => Some(v + 1),
    });
    assert_eq!(first_state, Some(100));
    let none: Vec<(u64, OverlayEffect<u32>)> = Vec::new();
    assert_eq!(collapse(none, |_state: Option<u32>, _effect| Some(1)), None);
}

#[test]
fn distinct_orders_collapse_the_same_in_any_input_order() {
    let forward = vec![
        (1, OverlayEffect::Value(vec![1])),
        (2, OverlayEffect::Value(vec![2])),
        (3, OverlayEffect::Tombstone),
    ];
    let backward = vec![
        (3, OverlayEffect::Tombstone),
        (2, OverlayEffect::Value(vec![2])),
        (1, OverlayEffect::Value(vec![1])),
    ];
    let trace = |state: Option<Vec<u32>>, effect: OverlayEffect<Vec<u32>>| {
        let mut seen = state.unwrap_or_default();
        match effect {
            OverlayEffect::Value(values) => seen.extend(values),
            OverlayEffect::Tombstone => seen.push(0),
        }
        Some(seen)
    };
    assert_eq!(collapse(forward, trace), collapse(backward, trace));
}

#[test]
fn newer_layers_continue_the_older_result() {
    let trace = |state: Option<Vec<u32>>, effect: OverlayEffect<Vec<u32>>| {
        let mut seen = state.unwrap_or_default();
        match effect {
            OverlayEffect::Value(values) => seen.extend(values),
            OverlayEffect::Tombstone => seen.push(0),
        }
        Some(seen)
    };
    let older = vec![(2, OverlayEffect::Value(vec![2])), (1, OverlayEffect::Value(vec![1]))];
    let newer = vec![(5, OverlayEffect::Tombstone), (4, OverlayEffect::Value(vec![4]))];
    let mut all = older.clone();
    all.extend(newer);
    let mut continued = collapse(older, trace);
    for (_, effect) in vec![(4, OverlayEffect::Value(vec![4])), (5, OverlayEffect::Tombstone)] {
        continued = trace(continued, effect);
    }
    assert_eq!(collapse(all, trace), continued);
    assert_eq!(continued, Some(vec![1, 2, 4, 0]));
}
