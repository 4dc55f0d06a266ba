//! What holds of the engine whatever it is fed.
//!
//! The laws speak of the state machine in [`crate::model`], which the engine
//! implements step by step. Those that compare the keys of neighbouring items
//! take equality of keys to be symmetric and transitive, as `PartialEq` asks.

use crate::event::{Event, Outcome};
use crate::model::State;
use crate::runs::{
    begins_run, concat, group_of, key_before, lemma_begins_run_after_equal,
    lemma_runs_begun_after_equal, lemma_runs_begun_bound, lemma_runs_begun_first,
    lemma_runs_partition, lemma_runs_placement, runs, runs_begun,
};
use vstd::laws_eq::obeys_eq_spec_properties;
use vstd::prelude::*;
use vstd::std_specs::cmp::PartialEqSpec;

verus! {

/// A step keeps the open group from being empty, whatever the comparison of
/// keys gives, and a group that it hands out holds at least one item.
pub proof fn lemma_step_keeps_wf<K: PartialEq, T>(state: State<K, T>, event: Event<K, T>, same: bool)
    requires
        state.wf(),
    ensures
        state.step_with(event, same).0.wf(),
        state.step(event).0.wf(),
        state.step_with(event, same).1 matches Outcome::Group(_, items) ==> items.len() > 0,
        state.step(event).1 matches Outcome::Group(_, items) ==> items.len() > 0,
{
}

/// Where a new engine stands after a source yielded `items`: the last run is
/// the open group, and the runs before it were handed out.
proof fn lemma_feed_runs<K: PartialEq, T>(keys: Seq<K>, items: Seq<T>)
    requires
        keys.len() == items.len(),
        keys.len() > 0,
        obeys_eq_spec_properties::<K>(),
    ensures
        ({
            let (state, out) = State::<K, T>::initial().feed(keys, items);
            let all = runs(keys, items);
            &&& all.len() > 0
            &&& state == State { open: Some(all.last()), pending: None }
            &&& out == all.drop_last()
            &&& (all.last().0 == keys.last() || all.last().0.eq_spec(&keys.last()))
        }),
    decreases keys.len(),
{
    let start = State::<K, T>::initial();
    let all = runs(keys, items);
    let (state, out) = start.feed(keys, items);
    if keys.len() == 1 {
        assert(keys.drop_last().len() == 0);
        assert(out =~= all.drop_last());
    } else {
        lemma_feed_runs(keys.drop_last(), items.drop_last());
        let earlier = runs(keys.drop_last(), items.drop_last());
        let head = earlier.last().0;
        let n = keys.len() - 1;
        assert(keys.drop_last().last() == keys[n - 1]);
        lemma_begins_run_after_equal(head, keys[n - 1], keys.last());
        assert(out =~= all.drop_last());
    }
}

/// The groups that come out of a new engine are the maximal runs of
/// consecutive items with equal keys: in order, each with the key of its first
/// item and with its items in order.
pub proof fn lemma_output_is_runs<K: PartialEq, T>(keys: Seq<K>, items: Seq<T>)
    requires
        keys.len() == items.len(),
        obeys_eq_spec_properties::<K>(),
    ensures
        State::<K, T>::initial().drain(keys, items) == runs(keys, items),
{
    let all = runs(keys, items);
    if keys.len() == 0 {
        assert(State::<K, T>::initial().drain(keys, items) =~= all);
    } else {
        lemma_feed_runs(keys, items);
        assert(all.drop_last().push(all.last()) =~= all);
        assert(State::<K, T>::initial().drain(keys, items) =~= all);
    }
}

/// The groups that come out of a new engine hold the items of the source in
/// the order in which it yielded them, and none of the groups is empty.
pub proof fn lemma_output_keeps_items<K: PartialEq, T>(keys: Seq<K>, items: Seq<T>)
    requires
        keys.len() == items.len(),
        obeys_eq_spec_properties::<K>(),
    ensures
        concat(State::<K, T>::initial().drain(keys, items)) == items,
        forall|g: int|
            0 <= g < State::<K, T>::initial().drain(keys, items).len() ==> (
            #[trigger] State::<K, T>::initial().drain(keys, items)[g]).1.len() > 0,
{
    lemma_output_is_runs(keys, items);
    lemma_runs_partition(keys, items);
}

/// Two consecutive items with equal keys come out in the same group.
pub proof fn lemma_no_spurious_split<K: PartialEq, T>(keys: Seq<K>, items: Seq<T>, i: int)
    requires
        keys.len() == items.len(),
        obeys_eq_spec_properties::<K>(),
        0 <= i,
        i + 1 < keys.len(),
        keys[i].eq_spec(&keys[i + 1]),
    ensures
        ({
            let out = State::<K, T>::initial().drain(keys, items);
            group_of(out, i) == group_of(out, i + 1)
        }),
{
    lemma_output_is_runs(keys, items);
    lemma_runs_placement(keys, items, i);
    lemma_runs_placement(keys, items, i + 1);
    assert(keys.take(i + 2).drop_last() =~= keys.take(i + 1));
}

/// Two consecutive items with keys that are not equal come out in different
/// groups: the second in the group right after that of the first.
pub proof fn lemma_no_spurious_merge<K: PartialEq, T>(keys: Seq<K>, items: Seq<T>, i: int)
    requires
        keys.len() == items.len(),
        obeys_eq_spec_properties::<K>(),
        0 <= i,
        i + 1 < keys.len(),
        !keys[i].eq_spec(&keys[i + 1]),
    ensures
        ({
            let out = State::<K, T>::initial().drain(keys, items);
            group_of(out, i + 1) == group_of(out, i) + 1
        }),
{
    lemma_output_is_runs(keys, items);
    lemma_runs_placement(keys, items, i);
    lemma_runs_placement(keys, items, i + 1);
    assert(keys.take(i + 2).drop_last() =~= keys.take(i + 1));
}

/// The key of the group that holds an item is the key of the first item of
/// the item's run.
pub proof fn lemma_group_key_is_first_key<K: PartialEq, T>(keys: Seq<K>, items: Seq<T>, i: int)
    requires
        keys.len() == items.len(),
        obeys_eq_spec_properties::<K>(),
        0 <= i < keys.len(),
        begins_run(key_before(None, keys, i), keys[i]),
    ensures
        ({
            let out = State::<K, T>::initial().drain(keys, items);
            &&& 0 <= group_of(out, i) < out.len()
            &&& out[group_of(out, i)].0 == keys[i]
        }),
{
    lemma_output_is_runs(keys, items);
    lemma_runs_placement(keys, items, i);
}

/// A source that ends at once gives no group.
pub proof fn lemma_empty_input<K: PartialEq, T>()
    ensures
        State::<K, T>::initial().drain(Seq::empty(), Seq::empty()) == Seq::<(K, Seq<T>)>::empty(),
{
    assert(State::<K, T>::initial().drain(Seq::empty(), Seq::empty()) =~= Seq::<
        (K, Seq<T>),
    >::empty());
}

/// A source of one item gives one group, which holds that item under its key.
pub proof fn lemma_single_item<K: PartialEq, T>(key: K, item: T)
    ensures
        State::<K, T>::initial().drain(seq![key], seq![item]) == seq![(key, seq![item])],
{
    let start = State::<K, T>::initial();
    let keys = seq![key];
    let items = seq![item];
    assert(start.feed(keys.drop_last(), items.drop_last()) == (start, Seq::<(K, Seq<T>)>::empty()));
    assert(start.feed(keys, items).1 =~= Seq::<(K, Seq<T>)>::empty());
    assert(start.drain(keys, items) =~= seq![(key, seq![item])]);
}

/// Once a pull has handed out the end, every later pull does: the pull leaves
/// the engine as it was, and a source that has ended ends again.
pub proof fn lemma_end_is_idempotent<K: PartialEq, T>(state: State<K, T>, pulls: nat)
    requires
        state.step(Event::End).1 == Outcome::<K, T>::End,
    ensures
        state.step(Event::End).0 == state,
        state.after_ends(pulls) == state,
        state.after_ends(pulls).step(Event::End).1 == Outcome::<K, T>::End,
    decreases pulls,
{
    if pulls > 0 {
        lemma_end_is_idempotent(state, (pulls - 1) as nat);
    }
}

/// After the source has ended, at most one group comes out: the pull after
/// the one that met the end hands out the end.
pub proof fn lemma_end_after_last_group<K: PartialEq, T>(state: State<K, T>)
    ensures
        state.step(Event::End).0.step(Event::End).1 == Outcome::<K, T>::End,
{
}

/// Where an engine that awaits no key stands after a source yielded `items`:
/// each run that began in them opened a group, and each group but the one that
/// is open now was handed out.
proof fn lemma_feed_count<K: PartialEq, T>(state: State<K, T>, keys: Seq<K>, items: Seq<T>)
    requires
        state.wf(),
        state.pending is None,
        keys.len() == items.len(),
        obeys_eq_spec_properties::<K>(),
    ensures
        ({
            let (last, out) = state.feed(keys, items);
            &&& last.wf()
            &&& last.pending is None
            &&& out.len() + last.owed() == state.owed() + runs_begun(state.open_key(), keys)
            &&& match key_before(state.open_key(), keys, keys.len() as int) {
                Some(key) => last.open_key() matches Some(head) && (head == key || head.eq_spec(
                    &key,
                )),
                None => last.open is None,
            }
        }),
    decreases keys.len(),
{
    if keys.len() > 0 {
        lemma_feed_count(state, keys.drop_last(), items.drop_last());
        let (mid, _) = state.feed(keys.drop_last(), items.drop_last());
        let n = keys.len() - 1;
        let before = key_before(state.open_key(), keys, n);
        assert(before == key_before(state.open_key(), keys.drop_last(), n));
        if let Some(key) = before {
            lemma_begins_run_after_equal(mid.open_key()->0, key, keys.last());
        }
    }
}

/// The number of groups that are still to come: one for the open group, and
/// one for each run that begins among the keys to come.
pub proof fn lemma_remaining_count<K: PartialEq, T>(
    state: State<K, T>,
    keys: Seq<K>,
    items: Seq<T>,
)
    requires
        state.wf(),
        keys.len() == items.len() + (if state.pending is Some {
            1nat
        } else {
            0nat
        }),
        obeys_eq_spec_properties::<K>(),
    ensures
        state.remaining(keys, items).len() == state.owed() + runs_begun(state.open_key(), keys),
{
    if state.pending is Some {
        let (next, _) = state.step(Event::Key(keys.first()));
        lemma_feed_count(next, keys.drop_first(), items);
        lemma_runs_begun_first(state.open_key(), keys);
        lemma_runs_begun_after_equal(next.open_key()->0, keys.first(), keys.drop_first());
    } else {
        lemma_feed_count(state, keys, items);
    }
}

/// The lower estimate does not exceed the number of groups that are still to
/// come exactly where the lower bound of the source does not exceed the number
/// of runs that begin among the keys to come (or where so many groups are to
/// come that no `usize` exceeds their number).
pub proof fn lemma_lower_estimate<K: PartialEq, T>(
    state: State<K, T>,
    keys: Seq<K>,
    items: Seq<T>,
    source: (usize, Option<usize>),
)
    requires
        state.wf(),
        keys.len() == items.len() + (if state.pending is Some {
            1nat
        } else {
            0nat
        }),
        obeys_eq_spec_properties::<K>(),
    ensures
        state.estimate(source).0 <= state.remaining(keys, items).len() <==> (source.0 <= runs_begun(
            state.open_key(),
            keys,
        ) || usize::MAX <= state.remaining(keys, items).len()),
{
    lemma_remaining_count(state, keys, items);
}

/// The upper estimate is there exactly where the source gives an upper bound.
/// It is not exceeded by the number of groups that are still to come exactly
/// where the upper bound of the source is not exceeded by the number of runs
/// that begin among the keys to come, and the number of groups is one that a
/// `usize` can hold.
pub proof fn lemma_upper_estimate<K: PartialEq, T>(
    state: State<K, T>,
    keys: Seq<K>,
    items: Seq<T>,
    source: (usize, Option<usize>),
)
    requires
        state.wf(),
        keys.len() == items.len() + (if state.pending is Some {
            1nat
        } else {
            0nat
        }),
        obeys_eq_spec_properties::<K>(),
    ensures
        state.estimate(source).1 is Some <==> source.1 is Some,
        source.1 matches Some(upper) ==> (state.remaining(keys, items).len() <= state.estimate(
            source,
        ).1->0 <==> (runs_begun(state.open_key(), keys) <= upper && state.remaining(
            keys,
            items,
        ).len() <= usize::MAX)),
{
    lemma_remaining_count(state, keys, items);
}

/// While no key is awaited, the upper estimate is not exceeded by the number
/// of groups that are still to come, where the source keeps its own upper
/// bound and the number of groups is one that a `usize` can hold.
pub proof fn lemma_upper_estimate_between_items<K: PartialEq, T>(
    state: State<K, T>,
    keys: Seq<K>,
    items: Seq<T>,
    source: (usize, Option<usize>),
)
    requires
        state.wf(),
        state.pending is None,
        keys.len() == items.len(),
        obeys_eq_spec_properties::<K>(),
        source.1 matches Some(upper) && items.len() <= upper,
        state.remaining(keys, items).len() <= usize::MAX,
    ensures
        state.estimate(source).1 matches Some(upper) && state.remaining(keys, items).len() <= upper,
{
    lemma_remaining_count(state, keys, items);
    lemma_runs_begun_bound(state.open_key(), keys);
    lemma_upper_estimate(state, keys, items, source);
}

} // verus!
