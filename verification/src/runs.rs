//! The partition of a sequence into maximal runs of consecutive equal keys.

use vstd::laws_eq::obeys_eq_spec_properties;
use vstd::prelude::*;
use vstd::std_specs::cmp::PartialEqSpec;

verus! {

/// Whether a run begins at an item with key `key` that comes right after an
/// item with key `before`, or that comes first where `before` is `None`.
pub open spec fn begins_run<K: PartialEq>(before: Option<K>, key: K) -> bool {
    match before {
        Some(earlier) => !earlier.eq_spec(&key),
        None => true,
    }
}

/// The key right before position `i` of `keys`, where `before` is the key
/// right before the sequence.
pub open spec fn key_before<K>(before: Option<K>, keys: Seq<K>, i: int) -> Option<K> {
    if i == 0 {
        before
    } else {
        Some(keys[i - 1])
    }
}

/// The number of runs that begin in `keys`, where `before` is the key right
/// before the sequence.
pub open spec fn runs_begun<K: PartialEq>(before: Option<K>, keys: Seq<K>) -> nat
    decreases keys.len(),
{
    if keys.len() == 0 {
        0
    } else {
        let earlier = runs_begun(before, keys.drop_last());
        if begins_run(key_before(before, keys, keys.len() - 1), keys.last()) {
            earlier + 1
        } else {
            earlier
        }
    }
}

/// The maximal runs of consecutive items with equal keys, in order: each with
/// the key of its first item and with its items in order. `keys[i]` is the key
/// of `items[i]`.
pub open spec fn runs<K: PartialEq, T>(keys: Seq<K>, items: Seq<T>) -> Seq<(K, Seq<T>)>
    recommends
        keys.len() == items.len(),
    decreases keys.len(),
{
    if keys.len() == 0 {
        Seq::empty()
    } else {
        let earlier = runs(keys.drop_last(), items.drop_last());
        if begins_run(key_before(None, keys, keys.len() - 1), keys.last()) {
            earlier.push((keys.last(), seq![items.last()]))
        } else {
            let open = earlier.last();
            earlier.drop_last().push((open.0, open.1.push(items.last())))
        }
    }
}

/// The items of all groups, in order.
pub open spec fn concat<K, T>(groups: Seq<(K, Seq<T>)>) -> Seq<T>
    decreases groups.len(),
{
    if groups.len() == 0 {
        Seq::empty()
    } else {
        concat(groups.drop_last()) + groups.last().1
    }
}

/// The index of the group that holds the item at position `i` of
/// `concat(groups)`.
pub open spec fn group_of<K, T>(groups: Seq<(K, Seq<T>)>, i: int) -> int
    recommends
        0 <= i < concat(groups).len(),
    decreases groups.len(),
{
    if groups.len() == 0 {
        0
    } else if concat(groups.drop_last()).len() <= i {
        groups.len() - 1
    } else {
        group_of(groups.drop_last(), i)
    }
}

/// Equality of keys is symmetric.
pub proof fn lemma_eq_symmetric<K: PartialEq>(a: K, b: K)
    requires
        obeys_eq_spec_properties::<K>(),
    ensures
        a.eq_spec(&b) == b.eq_spec(&a),
{
    reveal(obeys_eq_spec_properties);
}

/// Equality of keys is transitive.
pub proof fn lemma_eq_transitive<K: PartialEq>(a: K, b: K, c: K)
    requires
        obeys_eq_spec_properties::<K>(),
        a.eq_spec(&b),
        b.eq_spec(&c),
    ensures
        a.eq_spec(&c),
{
    reveal(obeys_eq_spec_properties);
}

/// Two keys that are the same or equal begin the same runs after them.
pub proof fn lemma_begins_run_after_equal<K: PartialEq>(a: K, b: K, key: K)
    requires
        obeys_eq_spec_properties::<K>(),
        a == b || a.eq_spec(&b),
    ensures
        begins_run(Some(a), key) == begins_run(Some(b), key),
{
    if a != b {
        lemma_eq_symmetric(a, b);
        if a.eq_spec(&key) {
            lemma_eq_transitive(b, a, key);
        }
        if b.eq_spec(&key) {
            lemma_eq_transitive(a, b, key);
        }
    }
}

/// No more runs begin than there are keys.
pub proof fn lemma_runs_begun_bound<K: PartialEq>(before: Option<K>, keys: Seq<K>)
    ensures
        runs_begun(before, keys) <= keys.len(),
        before is None && keys.len() > 0 ==> runs_begun(before, keys) > 0,
    decreases keys.len(),
{
    if keys.len() > 0 {
        lemma_runs_begun_bound(before, keys.drop_last());
    }
}

/// The runs that begin in a sequence are that of its first key, if it begins
/// one, and those that begin after it.
pub proof fn lemma_runs_begun_first<K: PartialEq>(before: Option<K>, keys: Seq<K>)
    requires
        keys.len() > 0,
    ensures
        runs_begun(before, keys) == runs_begun(Some(keys.first()), keys.drop_first()) + (if begins_run(
            before,
            keys.first(),
        ) {
            1nat
        } else {
            0nat
        }),
    decreases keys.len(),
{
    if keys.len() == 1 {
        assert(keys.drop_last().len() == 0);
        assert(keys.drop_first().len() == 0);
        assert(runs_begun(before, keys.drop_last()) == 0);
    } else {
        lemma_runs_begun_first(before, keys.drop_last());
        assert(keys.drop_last().drop_first() =~= keys.drop_first().drop_last());
        assert(keys.drop_last().first() == keys.first());
        assert(keys.drop_first().last() == keys.last());
        let n = keys.len() - 1;
        assert(key_before(before, keys, n) == key_before(
            Some(keys.first()),
            keys.drop_first(),
            n - 1,
        ));
    }
}

/// The runs that begin after a key also begin after a key equal to it.
pub proof fn lemma_runs_begun_after_equal<K: PartialEq>(a: K, b: K, keys: Seq<K>)
    requires
        obeys_eq_spec_properties::<K>(),
        a == b || a.eq_spec(&b),
    ensures
        runs_begun(Some(a), keys) == runs_begun(Some(b), keys),
    decreases keys.len(),
{
    if keys.len() > 0 {
        lemma_runs_begun_after_equal(a, b, keys.drop_last());
        if keys.len() == 1 {
            lemma_begins_run_after_equal(a, b, keys.last());
        }
    }
}

/// The items of a sequence of groups with one more group are those of the
/// sequence, then those of the group.
pub proof fn lemma_concat_push<K, T>(groups: Seq<(K, Seq<T>)>, group: (K, Seq<T>))
    ensures
        concat(groups.push(group)) == concat(groups) + group.1,
{
    assert(groups.push(group).drop_last() =~= groups);
}

/// `group_of` names the group that holds the item: the item at position `i` of
/// the items of all groups stands in group `group_of(groups, i)`, behind the
/// items of the groups before that one.
pub proof fn lemma_group_of_holds<K, T>(groups: Seq<(K, Seq<T>)>, i: int)
    requires
        0 <= i < concat(groups).len(),
    ensures
        0 <= group_of(groups, i) < groups.len(),
        ({
            let g = group_of(groups, i);
            let offset = concat(groups.take(g)).len();
            &&& offset <= i < offset + groups[g].1.len()
            &&& concat(groups)[i] == groups[g].1[i - offset]
        }),
    decreases groups.len(),
{
    let earlier = groups.drop_last();
    if concat(earlier).len() <= i {
        assert(groups.take(groups.len() - 1) =~= earlier);
    } else {
        lemma_group_of_holds(earlier, i);
        let g = group_of(earlier, i);
        assert(groups.take(g) =~= earlier.take(g));
    }
}

/// The runs of a sequence hold its items in order, there are as many as runs
/// begin in it, and none is empty.
pub proof fn lemma_runs_partition<K: PartialEq, T>(keys: Seq<K>, items: Seq<T>)
    requires
        keys.len() == items.len(),
    ensures
        runs(keys, items).len() == runs_begun(None::<K>, keys),
        concat(runs(keys, items)) == items,
        forall|g: int|
            0 <= g < runs(keys, items).len() ==> (#[trigger] runs(keys, items)[g]).1.len() > 0,
    decreases keys.len(),
{
    if keys.len() == 0 {
        assert(concat(runs(keys, items)) =~= items);
    } else {
        let earlier = runs(keys.drop_last(), items.drop_last());
        lemma_runs_partition(keys.drop_last(), items.drop_last());
        if begins_run(key_before(None, keys, keys.len() - 1), keys.last()) {
            lemma_concat_push(earlier, (keys.last(), seq![items.last()]));
            assert(items.drop_last() + seq![items.last()] =~= items);
        } else {
            lemma_runs_begun_bound(None::<K>, keys.drop_last());
            let open = earlier.last();
            lemma_concat_push(earlier.drop_last(), (open.0, open.1.push(items.last())));
            assert(concat(earlier.drop_last()) + open.1.push(items.last()) =~= (concat(
                earlier.drop_last(),
            ) + open.1).push(items.last()));
            assert(items.drop_last().push(items.last()) =~= items);
        }
    }
}

/// Where the runs of a sequence hold its item at position `i`: in the run that
/// began last at or before `i`. Where a run begins at `i`, its key is `keys[i]`.
pub proof fn lemma_runs_placement<K: PartialEq, T>(keys: Seq<K>, items: Seq<T>, i: int)
    requires
        keys.len() == items.len(),
        0 <= i < keys.len(),
    ensures
        group_of(runs(keys, items), i) == runs_begun(None::<K>, keys.take(i + 1)) - 1,
        0 <= group_of(runs(keys, items), i) < runs(keys, items).len(),
        begins_run(key_before(None, keys, i), keys[i]) ==> runs(keys, items)[group_of(
            runs(keys, items),
            i,
        )].0 == keys[i],
    decreases keys.len(),
{
    let n = keys.len() - 1;
    let all = runs(keys, items);
    let earlier = runs(keys.drop_last(), items.drop_last());
    lemma_runs_partition(keys, items);
    lemma_runs_partition(keys.drop_last(), items.drop_last());
    lemma_runs_begun_bound(None::<K>, keys.take(i + 1));
    if i < n {
        lemma_runs_placement(keys.drop_last(), items.drop_last(), i);
        assert(keys.drop_last().take(i + 1) =~= keys.take(i + 1));
        assert(key_before(None, keys.drop_last(), i) == key_before(None, keys, i));
    } else {
        assert(keys.take(i + 1) =~= keys);
    }
    if begins_run(key_before(None, keys, n), keys.last()) {
        assert(all.drop_last() =~= earlier);
    } else {
        lemma_runs_begun_bound(None::<K>, keys.drop_last());
        assert(all.drop_last() =~= earlier.drop_last());
    }
}

} // verus!
