//! Generic ordered overlay collapse helpers.
//!
//! Callers project their layers into ordered overlay effects; collapsing folds the effects
//! in order to derive the effective view.
use vstd::prelude::*;

verus! {

/// One layer's effect on an overlaid item: it sets a value or it removes the item.
#[derive(Debug, Clone, PartialEq, Eq)]
pub enum OverlayEffect<T> {
    Value(T),
    Tombstone,
}

/// The item an effect leaves behind when it is the last one applied.
pub open spec fn effect_value<T>(effect: OverlayEffect<T>) -> Option<T> {
    match effect {
        OverlayEffect::Value(value) => Some(value),
        OverlayEffect::Tombstone => None,
    }
}

/// Whether an entry carries the order key `order`.
pub open spec fn has_order<E>(order: u64) -> spec_fn((u64, E)) -> bool {
    |entry: (u64, E)| entry.0 == order
}

/// Whether the order keys of `entries` never decrease.
pub open spec fn is_ordered<E>(entries: Seq<(u64, E)>) -> bool {
    forall|i: int, j: int| 0 <= i <= j < entries.len() ==> entries[i].0 <= entries[j].0
}

/// `sorted` holds the entries of `entries` in the order of their keys, entries with equal
/// keys keeping their relative order (a stable sort by key).
pub open spec fn is_stable_order<E>(sorted: Seq<(u64, E)>, entries: Seq<(u64, E)>) -> bool {
    &&& sorted.len() == entries.len()
    &&& is_ordered(sorted)
    &&& forall|order: u64| #[trigger]
        sorted.filter(has_order(order)) == entries.filter(has_order(order))
}

/// Whether `states` records a fold of `merge` over the effects of `effects`: each state is
/// a possible outcome of `merge` on the one before it and the next effect.
pub open spec fn is_merge_chain<T, F: Fn(Option<T>, OverlayEffect<T>) -> Option<T>>(
    merge: F,
    effects: Seq<(u64, OverlayEffect<T>)>,
    states: Seq<Option<T>>,
) -> bool {
    &&& states.len() == effects.len() + 1
    &&& forall|i: int|
        #![trigger effects[i]]
        0 <= i < effects.len() ==> call_ensures(merge, (states[i], effects[i].1), states[i + 1])
}

/// `result` is a possible outcome of folding `merge` over the effects of `effects` in
/// sequence order, starting from `start`.
pub open spec fn is_merge_fold_from<T, F: Fn(Option<T>, OverlayEffect<T>) -> Option<T>>(
    merge: F,
    start: Option<T>,
    effects: Seq<(u64, OverlayEffect<T>)>,
    result: Option<T>,
) -> bool {
    exists|states: Seq<Option<T>>|
        {
            &&& #[trigger] is_merge_chain(merge, effects, states)
            &&& states[0] == start
            &&& states.last() == result
        }
}

/// `result` is a possible outcome of folding `merge` over the effects of `effects` in
/// sequence order, starting from no value.
pub open spec fn is_merge_fold<T, F: Fn(Option<T>, OverlayEffect<T>) -> Option<T>>(
    merge: F,
    effects: Seq<(u64, OverlayEffect<T>)>,
    result: Option<T>,
) -> bool {
    is_merge_fold_from(merge, None, effects, result)
}

/// Whether `merge` gives one outcome for each state and effect.
pub open spec fn is_deterministic<T, F: Fn(Option<T>, OverlayEffect<T>) -> Option<T>>(
    merge: F,
) -> bool {
    forall|state: Option<T>, effect: OverlayEffect<T>, first: Option<T>, second: Option<T>|
        #![trigger call_ensures(merge, (state, effect), first), call_ensures(merge, (state, effect), second)]
        call_ensures(merge, (state, effect), first) && call_ensures(merge, (state, effect), second)
            ==> first == second
}

/// Whether entry `i` is the one that decides the collapsed view: no entry has a greater
/// order key, and every later entry has a smaller one.
pub open spec fn is_latest_index<T>(entries: Seq<(u64, OverlayEffect<T>)>, i: int) -> bool {
    &&& 0 <= i < entries.len()
    &&& forall|j: int| 0 <= j < entries.len() ==> #[trigger] entries[j].0 <= entries[i].0
    &&& forall|j: int| i < j < entries.len() ==> #[trigger] entries[j].0 < entries[i].0
}

/// The effective item of `entries`: the effect of the entry with the greatest order key
/// (the last of them in `entries` where several share it); nothing when there is no entry.
pub open spec fn latest_value<T>(entries: Seq<(u64, OverlayEffect<T>)>) -> Option<T> {
    if exists|i: int| is_latest_index(entries, i) {
        effect_value(entries[choose|i: int| is_latest_index(entries, i)].1)
    } else {
        None
    }
}

proof fn lemma_filter_none<E>(s: Seq<E>, p: spec_fn(E) -> bool)
    requires
        forall|i: int| 0 <= i < s.len() ==> !p(#[trigger] s[i]),
    ensures
        s.filter(p) == Seq::<E>::empty(),
    decreases s.len(),
{
    reveal(Seq::filter);
    if s.len() > 0 {
        lemma_filter_none(s.drop_last(), p);
    }
}

proof fn lemma_filter_single<E>(e: E, p: spec_fn(E) -> bool)
    ensures
        seq![e].filter(p) == (if p(e) {
            seq![e]
        } else {
            Seq::<E>::empty()
        }),
{
    Seq::<E>::empty().lemma_filter_push(e, p);
    assert(Seq::<E>::empty().push(e) =~= seq![e]);
    lemma_filter_none(Seq::<E>::empty(), p);
}

/// Inserting an entry after every entry with a key at most its own, and before every entry
/// with a greater key, extends a stable order by that entry.
proof fn lemma_insert_keeps_stable_order<E>(
    sorted: Seq<(u64, E)>,
    consumed: Seq<(u64, E)>,
    pos: int,
    entry: (u64, E),
)
    requires
        is_stable_order(sorted, consumed),
        0 <= pos <= sorted.len(),
        forall|i: int| 0 <= i < pos ==> #[trigger] sorted[i].0 <= entry.0,
        forall|i: int| pos <= i < sorted.len() ==> #[trigger] sorted[i].0 > entry.0,
    ensures
        is_stable_order(sorted.insert(pos, entry), consumed.push(entry)),
{
    let grown = sorted.insert(pos, entry);
    let front = sorted.subrange(0, pos);
    let back = sorted.subrange(pos, sorted.len() as int);
    assert(grown =~= front + seq![entry] + back);
    assert(sorted =~= front + back);
    assert forall|order: u64| #[trigger]
        grown.filter(has_order(order)) == consumed.push(entry).filter(has_order(order)) by {
        let p = has_order::<E>(order);
        Seq::filter_distributes_over_add(front + seq![entry], back, p);
        Seq::filter_distributes_over_add(front, seq![entry], p);
        Seq::filter_distributes_over_add(front, back, p);
        consumed.lemma_filter_push(entry, p);
        lemma_filter_single(entry, p);
        assert(sorted.filter(p) == consumed.filter(p));
        if order == entry.0 {
            assert forall|i: int| 0 <= i < back.len() implies !p(#[trigger] back[i]) by {
                assert(back[i] == sorted[pos + i]);
            }
            lemma_filter_none(back, p);
            assert(grown.filter(p) =~= consumed.push(entry).filter(p));
        } else {
            assert(grown.filter(p) =~= consumed.push(entry).filter(p));
        }
    }
    assert forall|i: int, j: int| 0 <= i <= j < grown.len() implies grown[i].0 <= grown[j].0 by {
        if i < pos && j > pos {
            assert(grown[i] == sorted[i]);
            assert(grown[j] == sorted[j - 1]);
        } else if i < pos && j < pos {
            assert(grown[i] == sorted[i]);
            assert(grown[j] == sorted[j]);
        } else if i > pos {
            assert(grown[i] == sorted[i - 1]);
            assert(grown[j] == sorted[j - 1]);
        } else if i == pos && j > pos {
            assert(grown[j] == sorted[j - 1]);
        } else if i < pos && j == pos {
            assert(grown[i] == sorted[i]);
        }
    }
}

/// Sorts `entries` by order key, keeping entries with equal keys in their original order.
fn sort_by_order<E>(entries: Vec<(u64, E)>) -> (sorted: Vec<(u64, E)>)
    ensures
        is_stable_order(sorted@, entries@),
{
    let ghost original = entries@;
    let mut rest = entries;
    let mut sorted: Vec<(u64, E)> = Vec::new();
    proof {
        assert forall|order: u64| #[trigger]
            sorted@.filter(has_order(order)) == original.subrange(0, 0).filter(
                has_order(order),
            ) by {
            lemma_filter_none(sorted@, has_order::<E>(order));
            lemma_filter_none(original.subrange(0, 0), has_order::<E>(order));
        }
    }
    while rest.len() > 0
        invariant
            rest.len() <= original.len(),
            rest@ == original.subrange(original.len() - rest.len(), original.len() as int),
            is_stable_order(sorted@, original.subrange(0, original.len() - rest.len())),
        decreases rest.len(),
    {
        let ghost consumed = original.subrange(0, original.len() - rest.len());
        let entry = rest.remove(0);
        let key = entry.0;
        let mut pos: usize = 0;
        while pos < sorted.len() && sorted[pos].0 <= key
            invariant
                pos <= sorted.len(),
                forall|i: int| 0 <= i < pos ==> #[trigger] sorted@[i].0 <= key,
            decreases sorted.len() - pos,
        {
            pos = pos + 1;
        }
        proof {
            assert forall|i: int| pos <= i < sorted@.len() implies #[trigger] sorted@[i].0
                > entry.0 by {
                assert(sorted@[pos as int].0 <= sorted@[i].0);
            }
            lemma_insert_keeps_stable_order(sorted@, consumed, pos as int, entry);
            assert(consumed.push(entry) =~= original.subrange(
                0,
                original.len() - (rest.len()),
            ));
        }
        sorted.insert(pos, entry);
    }
    assert(original.subrange(0, original.len() as int) =~= original);
    sorted
}

/// Folds `merge` over the effects of `entries` in the order of their keys (entries with equal
/// keys in their given order), starting from no value.
pub fn collapse<T, F>(entries: Vec<(u64, OverlayEffect<T>)>, merge: F) -> (result: Option<T>) where
    F: Fn(Option<T>, OverlayEffect<T>) -> Option<T>,

    requires
        forall|state: Option<T>, effect: OverlayEffect<T>| merge.requires((state, effect)),
    ensures
        exists|sorted: Seq<(u64, OverlayEffect<T>)>|
            is_stable_order(sorted, entries@) && is_merge_fold(merge, sorted, result),
{
    let ghost input = entries@;
    let mut remaining = sort_by_order(entries);
    let ghost sorted = remaining@;
    let mut state: Option<T> = None;
    let ghost mut states: Seq<Option<T>> = seq![None];
    while remaining.len() > 0
        invariant
            forall|s: Option<T>, e: OverlayEffect<T>| merge.requires((s, e)),
            remaining.len() <= sorted.len(),
            remaining@ == sorted.subrange(sorted.len() - remaining.len(), sorted.len() as int),
            states.len() == sorted.len() - remaining.len() + 1,
            states[0] == None::<T>,
            states.last() == state,
            forall|i: int|
                #![trigger sorted[i]]
                0 <= i < sorted.len() - remaining.len() ==> call_ensures(
                    merge,
                    (states[i], sorted[i].1),
                    states[i + 1],
                ),
        decreases remaining.len(),
    {
        let ghost done = sorted.len() - remaining.len();
        let entry = remaining.remove(0);
        assert(entry == sorted[done]);
        let (_, effect) = entry;
        let next = merge(state, effect);
        proof {
            states = states.push(next);
        }
        state = next;
    }
    assert(is_merge_chain(merge, sorted, states));
    assert(is_merge_fold(merge, sorted, state));
    state
}

/// From a stable order of a non-empty `entries`, its last entry is the latest entry of
/// `entries`.
proof fn lemma_last_of_stable_order<T>(
    sorted: Seq<(u64, OverlayEffect<T>)>,
    entries: Seq<(u64, OverlayEffect<T>)>,
) -> (latest: int)
    requires
        is_stable_order(sorted, entries),
        entries.len() > 0,
    ensures
        is_latest_index(entries, latest),
        entries[latest] == sorted.last(),
{
    let top = sorted.last().0;
    let p = has_order::<OverlayEffect<T>>(top);
    reveal(Seq::filter);
    assert(sorted.filter(p) == sorted.drop_last().filter(p).push(sorted.last()));
    let latest = lemma_filter_last_index(entries, p);
    assert(entries.filter(p) == sorted.filter(p));
    assert forall|j: int| 0 <= j < entries.len() implies #[trigger] entries[j].0 <= top by {
        let q = has_order::<OverlayEffect<T>>(entries[j].0);
        entries.lemma_filter_contains(q, j);
        assert(sorted.filter(q) == entries.filter(q));
        sorted.lemma_filter_contains_rev(q, entries[j]);
        let t = choose|t: int| 0 <= t < sorted.len() && sorted[t] == entries[j];
        assert(sorted[t].0 <= sorted[sorted.len() - 1].0);
    }
    assert forall|j: int| latest < j < entries.len() implies #[trigger] entries[j].0 < top by {
        assert(!p(entries[j]));
    }
    latest
}

/// The last entry of `s` that satisfies `p` is the last element of `s.filter(p)`.
proof fn lemma_filter_last_index<E>(s: Seq<E>, p: spec_fn(E) -> bool) -> (i: int)
    requires
        s.filter(p).len() > 0,
    ensures
        0 <= i < s.len(),
        p(s[i]),
        forall|j: int| i < j < s.len() ==> !p(#[trigger] s[j]),
        s.filter(p).last() == s[i],
    decreases s.len(),
{
    reveal(Seq::filter);
    if s.len() == 0 {
        assert(false);
        0
    } else if p(s.last()) {
        (s.len() - 1) as int
    } else {
        let i = lemma_filter_last_index(s.drop_last(), p);
        assert forall|j: int| i < j < s.len() implies !p(#[trigger] s[j]) by {
            if j < s.len() - 1 {
                assert(s[j] == s.drop_last()[j]);
            }
        }
        i
    }
}

/// Two latest indices of the same entries are the same index.
pub proof fn lemma_latest_index_unique<T>(entries: Seq<(u64, OverlayEffect<T>)>, i: int, j: int)
    requires
        is_latest_index(entries, i),
        is_latest_index(entries, j),
    ensures
        i == j,
{
    if i < j {
        assert(entries[j].0 < entries[i].0);
        assert(entries[j].0 >= entries[i].0);
    } else if j < i {
        assert(entries[i].0 < entries[j].0);
        assert(entries[i].0 >= entries[j].0);
    }
}

/// The effective item of `entries`: the effect with the greatest order key wins, the
/// later one in `entries` where keys tie; a tombstone or no entry at all leaves nothing.
pub fn collapse_latest<T>(entries: Vec<(u64, OverlayEffect<T>)>) -> (result: Option<T>)
    ensures
        result == latest_value(entries@),
{
    let ghost input = entries@;
    let latest = |_state: Option<T>, effect: OverlayEffect<T>| -> (next: Option<T>)
        ensures
            next == effect_value(effect),
        {
            match effect {
                OverlayEffect::Value(value) => Some(value),
                OverlayEffect::Tombstone => None,
            }
        };
    let result = collapse(entries, latest);
    proof {
        let sorted = choose|sorted: Seq<(u64, OverlayEffect<T>)>|
            is_stable_order(sorted, input) && is_merge_fold(latest, sorted, result);
        let states = choose|states: Seq<Option<T>>|
            {
                &&& #[trigger] is_merge_chain(latest, sorted, states)
                &&& states[0] == None::<T>
                &&& states.last() == result
            };
        if input.len() == 0 {
            assert(!exists|i: int| is_latest_index(input, i));
        } else {
            let n = sorted.len() - 1;
            assert(call_ensures(latest, (states[n], sorted[n].1), states[n + 1]));
            let k = lemma_last_of_stable_order(sorted, input);
            let c = choose|i: int| is_latest_index(input, i);
            lemma_latest_index_unique(input, c, k);
        }
    }
    result
}

/// Two ordered sequences with the same entries under every key are the same sequence.
proof fn lemma_same_filters_same_order<E>(s1: Seq<(u64, E)>, s2: Seq<(u64, E)>)
    requires
        s1.len() == s2.len(),
        is_ordered(s1),
        is_ordered(s2),
        forall|order: u64| #[trigger] s1.filter(has_order(order)) == s2.filter(has_order(order)),
    ensures
        s1 == s2,
    decreases s1.len(),
{
    if s1.len() == 0 {
        assert(s1 =~= s2);
    } else {
        let n = s1.len() - 1;
        let k1 = s1.last().0;
        let k2 = s2.last().0;
        let p1 = has_order::<E>(k1);
        let p2 = has_order::<E>(k2);
        s2.lemma_filter_contains(p2, n);
        assert(s1.filter(p2) == s2.filter(p2));
        s1.lemma_filter_contains_rev(p2, s2[n]);
        let t1 = choose|t: int| 0 <= t < s1.len() && s1[t] == s2[n];
        assert(s1[t1].0 <= s1[n].0);
        s1.lemma_filter_contains(p1, n);
        assert(s1.filter(p1) == s2.filter(p1));
        s2.lemma_filter_contains_rev(p1, s1[n]);
        let t2 = choose|t: int| 0 <= t < s2.len() && s2[t] == s1[n];
        assert(s2[t2].0 <= s2[n].0);
        assert(k1 == k2);
        reveal(Seq::filter);
        assert(s1.filter(p1) == s1.drop_last().filter(p1).push(s1.last()));
        assert(s2.filter(p1) == s2.drop_last().filter(p1).push(s2.last()));
        assert(s1.last() == s1.filter(p1).last());
        assert(s2.last() == s2.filter(p1).last());
        assert(s1.drop_last().filter(p1) =~= s1.filter(p1).drop_last());
        assert(s2.drop_last().filter(p1) =~= s2.filter(p1).drop_last());
        assert forall|order: u64| #[trigger]
            s1.drop_last().filter(has_order(order)) == s2.drop_last().filter(has_order(order)) by {
            let p = has_order::<E>(order);
            if order != k1 {
                assert(s1.filter(p) == s1.drop_last().filter(p));
                assert(s2.filter(p) == s2.drop_last().filter(p));
                assert(s1.filter(p) == s2.filter(p));
            }
        }
        lemma_same_filters_same_order(s1.drop_last(), s2.drop_last());
        assert(s1 =~= s1.drop_last().push(s1.last()));
        assert(s2 =~= s2.drop_last().push(s2.last()));
    }
}

/// A sequence of entries has exactly one stable order, so `collapse` folds `merge` over one
/// determined sequence of effects.
pub proof fn lemma_stable_order_unique<E>(
    first: Seq<(u64, E)>,
    second: Seq<(u64, E)>,
    entries: Seq<(u64, E)>,
)
    requires
        is_stable_order(first, entries),
        is_stable_order(second, entries),
    ensures
        first == second,
{
    assert forall|order: u64| #[trigger]
        first.filter(has_order(order)) == second.filter(has_order(order)) by {
        assert(first.filter(has_order(order)) == entries.filter(has_order(order)));
        assert(second.filter(has_order(order)) == entries.filter(has_order(order)));
    }
    lemma_same_filters_same_order(first, second);
}

/// Whether no two entries share an order key.
pub open spec fn has_distinct_orders<E>(entries: Seq<(u64, E)>) -> bool {
    forall|i: int, j: int|
        0 <= i < j < entries.len() ==> #[trigger] entries[i].0 != #[trigger] entries[j].0
}

/// Where keys are distinct, the entries with a given key are that key's one entry, or none.
proof fn lemma_filter_distinct<E>(s: Seq<(u64, E)>, order: u64)
    requires
        has_distinct_orders(s),
    ensures
        forall|i: int|
            0 <= i < s.len() && #[trigger] s[i].0 == order ==> s.filter(has_order(order)) == seq![
                s[i],
            ],
        (forall|i: int| 0 <= i < s.len() ==> #[trigger] s[i].0 != order) ==> s.filter(
            has_order(order),
        ) == Seq::<(u64, E)>::empty(),
    decreases s.len(),
{
    let p = has_order::<E>(order);
    reveal(Seq::filter);
    if s.len() > 0 {
        let rest = s.drop_last();
        assert forall|i: int, j: int| 0 <= i < j < rest.len() implies #[trigger] rest[i].0
            != #[trigger] rest[j].0 by {
            assert(rest[i] == s[i] && rest[j] == s[j]);
        }
        lemma_filter_distinct(rest, order);
        if s.last().0 == order {
            assert forall|i: int| 0 <= i < rest.len() implies #[trigger] rest[i].0 != order by {
                assert(rest[i] == s[i]);
                assert(s[i].0 != s[s.len() - 1].0);
            }
            assert(rest.filter(p) == Seq::<(u64, E)>::empty());
            assert(s.filter(p) =~= seq![s.last()]);
            assert forall|i: int| 0 <= i < s.len() && #[trigger] s[i].0 == order implies s.filter(p)
                == seq![s[i]] by {
                if i < s.len() - 1 {
                    assert(s[i].0 != s[s.len() - 1].0);
                }
            }
        } else {
            assert(s.filter(p) == rest.filter(p));
            assert forall|i: int| 0 <= i < s.len() && #[trigger] s[i].0 == order implies s.filter(p)
                == seq![s[i]] by {
                assert(rest[i] == s[i]);
            }
            if forall|i: int| 0 <= i < s.len() ==> #[trigger] s[i].0 != order {
                assert forall|i: int| 0 <= i < rest.len() implies #[trigger] rest[i].0 != order by {
                    assert(rest[i] == s[i]);
                }
            }
        }
    }
}

/// Entries with pairwise distinct keys have one stable order whatever order they come in:
/// `collapse` folds `merge` over the same effects for any reordering of them.
pub proof fn lemma_stable_order_ignores_input_order<E>(
    entries: Seq<(u64, E)>,
    reordered: Seq<(u64, E)>,
    sorted: Seq<(u64, E)>,
)
    requires
        has_distinct_orders(entries),
        has_distinct_orders(reordered),
        reordered.len() == entries.len(),
        forall|entry: (u64, E)| entries.contains(entry) <==> reordered.contains(entry),
        is_stable_order(sorted, entries),
    ensures
        is_stable_order(sorted, reordered),
{
    assert forall|order: u64| #[trigger]
        sorted.filter(has_order(order)) == reordered.filter(has_order(order)) by {
        assert(sorted.filter(has_order(order)) == entries.filter(has_order(order)));
        lemma_filter_distinct(entries, order);
        lemma_filter_distinct(reordered, order);
        if exists|i: int| 0 <= i < entries.len() && entries[i].0 == order {
            let i = choose|i: int| 0 <= i < entries.len() && entries[i].0 == order;
            assert(entries.contains(entries[i]));
            let j = choose|j: int| 0 <= j < reordered.len() && reordered[j] == entries[i];
            assert(reordered[j].0 == order);
        } else {
            assert forall|j: int| 0 <= j < reordered.len() implies #[trigger] reordered[j].0
                != order by {
                assert(reordered.contains(reordered[j]));
                if reordered[j].0 == order {
                    let i = choose|i: int| 0 <= i < entries.len() && entries[i] == reordered[j];
                    assert(entries[i].0 == order);
                }
            }
        }
    }
}

/// Every entry of a stable order of `entries` is an entry of `entries`.
proof fn lemma_stable_order_members<E>(sorted: Seq<(u64, E)>, entries: Seq<(u64, E)>, i: int)
    requires
        is_stable_order(sorted, entries),
        0 <= i < sorted.len(),
    ensures
        entries.contains(sorted[i]),
{
    let p = has_order::<E>(sorted[i].0);
    sorted.lemma_filter_contains(p, i);
    assert(sorted.filter(p) == entries.filter(p));
    entries.lemma_filter_contains_rev(p, sorted[i]);
}

/// Where no key of `earlier` exceeds a key of `later`, the stable order of the two one after
/// the other is the stable order of `earlier` followed by that of `later`: collapsing them
/// together folds `merge` over the effects of `earlier` and then over those of `later`.
pub proof fn lemma_stable_order_concat<E>(
    earlier: Seq<(u64, E)>,
    later: Seq<(u64, E)>,
    earlier_sorted: Seq<(u64, E)>,
    later_sorted: Seq<(u64, E)>,
)
    requires
        forall|i: int, j: int|
            0 <= i < earlier.len() && 0 <= j < later.len() ==> #[trigger] earlier[i].0
                <= #[trigger] later[j].0,
        is_stable_order(earlier_sorted, earlier),
        is_stable_order(later_sorted, later),
    ensures
        is_stable_order(earlier_sorted + later_sorted, earlier + later),
{
    let joined = earlier_sorted + later_sorted;
    assert forall|order: u64| #[trigger]
        joined.filter(has_order(order)) == (earlier + later).filter(has_order(order)) by {
        Seq::filter_distributes_over_add(earlier_sorted, later_sorted, has_order::<E>(order));
        Seq::filter_distributes_over_add(earlier, later, has_order::<E>(order));
        assert(earlier_sorted.filter(has_order(order)) == earlier.filter(has_order(order)));
        assert(later_sorted.filter(has_order(order)) == later.filter(has_order(order)));
    }
    assert forall|i: int, j: int| 0 <= i <= j < joined.len() implies joined[i].0
        <= joined[j].0 by {
        let n = earlier_sorted.len() as int;
        if j < n {
            assert(joined[i] == earlier_sorted[i] && joined[j] == earlier_sorted[j]);
        } else if i >= n {
            assert(joined[i] == later_sorted[i - n] && joined[j] == later_sorted[j - n]);
        } else {
            assert(joined[i] == earlier_sorted[i] && joined[j] == later_sorted[j - n]);
            lemma_stable_order_members(earlier_sorted, earlier, i);
            lemma_stable_order_members(later_sorted, later, j - n);
            let a = choose|a: int| 0 <= a < earlier.len() && earlier[a] == earlier_sorted[i];
            let b = choose|b: int| 0 <= b < later.len() && later[b] == later_sorted[j - n];
            assert(earlier[a].0 <= later[b].0);
        }
    }
}

/// Two records of a fold of a deterministic `merge` from the same start agree everywhere.
proof fn lemma_merge_chains_agree<T, F: Fn(Option<T>, OverlayEffect<T>) -> Option<T>>(
    merge: F,
    effects: Seq<(u64, OverlayEffect<T>)>,
    first: Seq<Option<T>>,
    second: Seq<Option<T>>,
    i: int,
)
    requires
        is_deterministic(merge),
        is_merge_chain(merge, effects, first),
        is_merge_chain(merge, effects, second),
        first[0] == second[0],
        0 <= i <= effects.len(),
    ensures
        first[i] == second[i],
    decreases i,
{
    if i > 0 {
        lemma_merge_chains_agree(merge, effects, first, second, i - 1);
        let e = effects[i - 1];
        assert(call_ensures(merge, (first[i - 1], e.1), first[i]));
        assert(call_ensures(merge, (second[i - 1], e.1), second[i]));
    }
}

/// Folding a deterministic `merge` over the same effects from the same start has one
/// outcome.
pub proof fn lemma_merge_fold_deterministic<T, F: Fn(Option<T>, OverlayEffect<T>) -> Option<T>>(
    merge: F,
    start: Option<T>,
    effects: Seq<(u64, OverlayEffect<T>)>,
    first: Option<T>,
    second: Option<T>,
)
    requires
        is_deterministic(merge),
        is_merge_fold_from(merge, start, effects, first),
        is_merge_fold_from(merge, start, effects, second),
    ensures
        first == second,
{
    let s1 = choose|states: Seq<Option<T>>|
        {
            &&& #[trigger] is_merge_chain(merge, effects, states)
            &&& states[0] == start
            &&& states.last() == first
        };
    let s2 = choose|states: Seq<Option<T>>|
        {
            &&& #[trigger] is_merge_chain(merge, effects, states)
            &&& states[0] == start
            &&& states.last() == second
        };
    lemma_merge_chains_agree(merge, effects, s1, s2, effects.len() as int);
}

/// With a deterministic `merge`, collapsing entries with pairwise distinct keys gives the
/// same result in whatever order the entries are given: `result` and `reordered_result` are
/// what `collapse` ensures of `entries` and of `reordered`.
pub proof fn lemma_collapse_ignores_input_order<T, F: Fn(Option<T>, OverlayEffect<T>) -> Option<T>>(
    merge: F,
    entries: Seq<(u64, OverlayEffect<T>)>,
    reordered: Seq<(u64, OverlayEffect<T>)>,
    result: Option<T>,
    reordered_result: Option<T>,
)
    requires
        is_deterministic(merge),
        has_distinct_orders(entries),
        has_distinct_orders(reordered),
        reordered.len() == entries.len(),
        forall|entry: (u64, OverlayEffect<T>)| entries.contains(entry) <==> reordered.contains(entry),
        exists|sorted: Seq<(u64, OverlayEffect<T>)>|
            is_stable_order(sorted, entries) && is_merge_fold(merge, sorted, result),
        exists|sorted: Seq<(u64, OverlayEffect<T>)>|
            is_stable_order(sorted, reordered) && is_merge_fold(merge, sorted, reordered_result),
    ensures
        result == reordered_result,
{
    let s1 = choose|sorted: Seq<(u64, OverlayEffect<T>)>|
        is_stable_order(sorted, entries) && is_merge_fold(merge, sorted, result);
    let s2 = choose|sorted: Seq<(u64, OverlayEffect<T>)>|
        is_stable_order(sorted, reordered) && is_merge_fold(merge, sorted, reordered_result);
    lemma_stable_order_ignores_input_order(entries, reordered, s1);
    lemma_stable_order_unique(s1, s2, reordered);
    lemma_merge_fold_deterministic(merge, None, s1, result, reordered_result);
}

/// With a deterministic `merge`, where no key of `earlier` exceeds a key of `later`,
/// collapsing the two one after the other continues from the collapse of `earlier` by
/// folding over `later` in stable order: `earlier_result` and `result` are what `collapse`
/// ensures of `earlier` and of `earlier + later`.
pub proof fn lemma_collapse_concat<T, F: Fn(Option<T>, OverlayEffect<T>) -> Option<T>>(
    merge: F,
    earlier: Seq<(u64, OverlayEffect<T>)>,
    later: Seq<(u64, OverlayEffect<T>)>,
    later_sorted: Seq<(u64, OverlayEffect<T>)>,
    earlier_result: Option<T>,
    result: Option<T>,
)
    requires
        is_deterministic(merge),
        forall|i: int, j: int|
            0 <= i < earlier.len() && 0 <= j < later.len() ==> #[trigger] earlier[i].0
                <= #[trigger] later[j].0,
        is_stable_order(later_sorted, later),
        exists|sorted: Seq<(u64, OverlayEffect<T>)>|
            is_stable_order(sorted, earlier) && is_merge_fold(merge, sorted, earlier_result),
        exists|sorted: Seq<(u64, OverlayEffect<T>)>|
            is_stable_order(sorted, earlier + later) && is_merge_fold(merge, sorted, result),
    ensures
        is_merge_fold_from(merge, earlier_result, later_sorted, result),
{
    let se = choose|sorted: Seq<(u64, OverlayEffect<T>)>|
        is_stable_order(sorted, earlier) && is_merge_fold(merge, sorted, earlier_result);
    let sj = choose|sorted: Seq<(u64, OverlayEffect<T>)>|
        is_stable_order(sorted, earlier + later) && is_merge_fold(merge, sorted, result);
    lemma_stable_order_concat(earlier, later, se, later_sorted);
    lemma_stable_order_unique(sj, se + later_sorted, earlier + later);
    let states = choose|states: Seq<Option<T>>|
        {
            &&& #[trigger] is_merge_chain(merge, sj, states)
            &&& states[0] == None::<T>
            &&& states.last() == result
        };
    let n = se.len() as int;
    let front = states.subrange(0, n + 1);
    let back = states.subrange(n, states.len() as int);
    assert forall|i: int| #![trigger se[i]] 0 <= i < se.len() implies call_ensures(
        merge,
        (front[i], se[i].1),
        front[i + 1],
    ) by {
        assert(sj[i] == se[i]);
    }
    assert(is_merge_chain(merge, se, front));
    assert(is_merge_fold(merge, se, states[n]));
    lemma_merge_fold_deterministic(merge, None, se, states[n], earlier_result);
    assert forall|i: int| #![trigger later_sorted[i]] 0 <= i < later_sorted.len() implies call_ensures(
        merge,
        (back[i], later_sorted[i].1),
        back[i + 1],
    ) by {
        assert(sj[n + i] == later_sorted[i]);
    }
    assert(is_merge_chain(merge, later_sorted, back));
}

} // verus!
