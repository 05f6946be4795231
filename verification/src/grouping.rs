//! Grouping items by key, and the merging of keyed groups, as specifications with their laws.
use vstd::prelude::*;
use vstd::multiset::Multiset;

verus! {

/// The distinct keys of `keys`, in the order they first occur.
pub open spec fn first_keys<K>(keys: Seq<K>) -> Seq<K>
    decreases keys.len(),
{
    if keys.len() == 0 {
        Seq::empty()
    } else {
        let rest = first_keys(keys.drop_last());
        if rest.contains(keys.last()) {
            rest
        } else {
            rest.push(keys.last())
        }
    }
}

/// The items whose key (at the same position of `keys`) is `k`, in order.
pub open spec fn select<K, V>(keys: Seq<K>, items: Seq<V>, k: K) -> Seq<V>
    decreases items.len(),
{
    if items.len() == 0 || keys.len() == 0 {
        Seq::empty()
    } else {
        let rest = select(keys.drop_last(), items.drop_last(), k);
        if keys.last() == k {
            rest.push(items.last())
        } else {
            rest
        }
    }
}

/// `gkeys` and `gitems` group `items` by their keys: one group per distinct key, in the order
/// the keys first occur, each holding the items with that key in the order they came.
pub open spec fn is_grouping<K, V>(keys: Seq<K>, items: Seq<V>, gkeys: Seq<K>, gitems: Seq<Seq<V>>) -> bool {
    &&& gkeys == first_keys(keys)
    &&& gitems.len() == gkeys.len()
    &&& forall|g: int| 0 <= g < gkeys.len() ==> #[trigger] gitems[g] == select(keys, items, gkeys[g])
}

/// `items` grouped by `keys`: for each distinct key, in the order the keys first occur, the key
/// and the items that carry it, in the order they came.
pub open spec fn grouping<K, V>(keys: Seq<K>, items: Seq<V>) -> Seq<(K, Seq<V>)> {
    first_keys(keys).map_values(|k: K| (k, select(keys, items, k)))
}

/// How many items the groups hold together.
pub open spec fn total<K, V>(groups: Seq<(K, Seq<V>)>) -> nat
    decreases groups.len(),
{
    if groups.len() == 0 {
        0
    } else {
        total(groups.drop_last()) + groups.last().1.len()
    }
}

/// The groups that hold at least two items, in order.
pub open spec fn multiples<K, V>(groups: Seq<(K, Seq<V>)>) -> Seq<(K, Seq<V>)>
    decreases groups.len(),
{
    if groups.len() == 0 {
        groups
    } else if groups.last().1.len() >= 2 {
        multiples(groups.drop_last()).push(groups.last())
    } else {
        multiples(groups.drop_last())
    }
}

/// The keys of a sequence of groups.
pub open spec fn keys_of<K, V>(groups: Seq<(K, Seq<V>)>) -> Seq<K> {
    groups.map_values(|e: (K, Seq<V>)| e.0)
}

/// Adding a group adds its items to the total.
pub(crate) proof fn lemma_total_push<K, V>(groups: Seq<(K, Seq<V>)>, e: (K, Seq<V>))
    ensures
        total(groups.push(e)) == total(groups) + e.1.len(),
{
    assert(groups.push(e).drop_last() =~= groups);
}

/// Adding one item to a group adds one to the total.
pub(crate) proof fn lemma_total_grow<K, V>(groups: Seq<(K, Seq<V>)>, i: int, x: V)
    requires
        0 <= i < groups.len(),
    ensures
        total(groups.update(i, (groups[i].0, groups[i].1.push(x)))) == total(groups) + 1,
    decreases groups.len(),
{
    let u = groups.update(i, (groups[i].0, groups[i].1.push(x)));
    if i == groups.len() - 1 {
        assert(u.drop_last() =~= groups.drop_last());
    } else {
        lemma_total_grow(groups.drop_last(), i, x);
        assert(u.drop_last() =~= groups.drop_last().update(i, (groups[i].0, groups[i].1.push(x))));
    }
}

/// A new key is added at the end of the distinct keys; a known one changes nothing.
pub(crate) proof fn lemma_first_keys_push<K>(keys: Seq<K>, k: K)
    ensures
        first_keys(keys.push(k)) == (if first_keys(keys).contains(k) {
            first_keys(keys)
        } else {
            first_keys(keys).push(k)
        }),
{
    assert(keys.push(k).drop_last() =~= keys);
}

/// A new item joins the selection of its own key only.
pub(crate) proof fn lemma_select_push<K, V>(keys: Seq<K>, items: Seq<V>, k: K, x: V, key: K)
    requires
        keys.len() == items.len(),
    ensures
        select(keys.push(k), items.push(x), key) == (if k == key {
            select(keys, items, key).push(x)
        } else {
            select(keys, items, key)
        }),
{
    assert(keys.push(k).drop_last() =~= keys);
    assert(items.push(x).drop_last() =~= items);
}

/// The distinct keys are exactly the keys that occur.
pub(crate) proof fn lemma_first_keys_contains<K>(keys: Seq<K>, x: K)
    ensures
        first_keys(keys).contains(x) <==> keys.contains(x),
    decreases keys.len(),
{
    if keys.len() > 0 {
        let d = keys.drop_last();
        lemma_first_keys_contains(d, x);
        let rest = first_keys(d);
        if keys.contains(x) {
            let m = choose|m: int| 0 <= m < keys.len() && keys[m] == x;
            if m < keys.len() - 1 {
                assert(d[m] == x);
            }
        }
        if d.contains(x) {
            let m = choose|m: int| 0 <= m < d.len() && d[m] == x;
            assert(keys[m] == x);
        }
        if !rest.contains(keys.last()) {
            assert(rest.push(keys.last())[rest.len() as int] == keys.last());
            if rest.push(keys.last()).contains(x) && x != keys.last() {
                let m = choose|m: int| 0 <= m < rest.len() + 1 && rest.push(keys.last())[m] == x;
                assert(rest[m] == x);
            }
            if rest.contains(x) {
                let m = choose|m: int| 0 <= m < rest.len() && rest[m] == x;
                assert(rest.push(keys.last())[m] == x);
            }
        }
        assert(keys[keys.len() - 1] == keys.last());
    }
}

/// A key that does not occur selects nothing.
pub(crate) proof fn lemma_select_absent<K, V>(keys: Seq<K>, items: Seq<V>, key: K)
    requires
        keys.len() == items.len(),
        !keys.contains(key),
    ensures
        select(keys, items, key) == Seq::<V>::empty(),
    decreases keys.len(),
{
    if keys.len() > 0 {
        assert(keys[keys.len() - 1] == keys.last());
        let d = keys.drop_last();
        if d.contains(key) {
            let m = choose|m: int| 0 <= m < d.len() && d[m] == key;
            assert(keys[m] == key);
        }
        lemma_select_absent(d, items.drop_last(), key);
    }
}

/// The distinct keys hold no key twice.
pub(crate) proof fn lemma_first_keys_distinct<K>(keys: Seq<K>)
    ensures
        first_keys(keys).no_duplicates(),
    decreases keys.len(),
{
    if keys.len() > 0 {
        lemma_first_keys_distinct(keys.drop_last());
    }
}

/// Grouping one item more: it joins the group of its key, or starts a new group at the end.
pub(crate) proof fn lemma_grouping_push<K, V>(keys: Seq<K>, items: Seq<V>, k: K, x: V) -> (i: int)
    requires
        keys.len() == items.len(),
    ensures
        first_keys(keys).contains(k) ==> {
            &&& 0 <= i < first_keys(keys).len()
            &&& first_keys(keys)[i] == k
            &&& grouping(keys.push(k), items.push(x)) == grouping(keys, items).update(
                i,
                (k, grouping(keys, items)[i].1.push(x)),
            )
        },
        !first_keys(keys).contains(k) ==> grouping(keys.push(k), items.push(x)) == grouping(
            keys,
            items,
        ).push((k, seq![x])),
{
    let fk = first_keys(keys);
    let g0 = grouping(keys, items);
    let g1 = grouping(keys.push(k), items.push(x));
    lemma_first_keys_push(keys, k);
    lemma_first_keys_distinct(keys);
    if fk.contains(k) {
        let i = choose|i: int| 0 <= i < fk.len() && fk[i] == k;
        assert forall|g: int| 0 <= g < fk.len() implies #[trigger] g1[g] == g0.update(i, (k, g0[i].1.push(x)))[g] by {
            lemma_select_push(keys, items, k, x, fk[g]);
            if g != i {
                assert(fk[g] != fk[i]);
            }
        }
        assert(g1 =~= g0.update(i, (k, g0[i].1.push(x))));
        i
    } else {
        lemma_first_keys_contains(keys, k);
        lemma_select_absent(keys, items, k);
        assert forall|g: int| 0 <= g < fk.len() implies #[trigger] g1[g] == g0[g] by {
            lemma_select_push(keys, items, k, x, fk[g]);
        }
        lemma_select_push(keys, items, k, x, k);
        assert(Seq::<V>::empty().push(x) =~= seq![x]);
        assert(g1 =~= g0.push((k, seq![x])));
        0
    }
}

/// Grouping neither loses nor repeats an item: together the groups hold exactly as many items
/// as were grouped.
pub proof fn lemma_grouping_keeps_every_item<K, V>(keys: Seq<K>, items: Seq<V>)
    requires
        keys.len() == items.len(),
    ensures
        total(grouping(keys, items)) == items.len(),
    decreases items.len(),
{
    if items.len() == 0 {
        assert(grouping(keys, items) =~= Seq::<(K, Seq<V>)>::empty());
    } else {
        let ks = keys.drop_last();
        let its = items.drop_last();
        lemma_grouping_keeps_every_item(ks, its);
        assert(ks.push(keys.last()) =~= keys);
        assert(its.push(items.last()) =~= items);
        let i = lemma_grouping_push(ks, its, keys.last(), items.last());
        if first_keys(ks).contains(keys.last()) {
            lemma_total_grow(grouping(ks, its), i, items.last());
        } else {
            lemma_total_push(grouping(ks, its), (keys.last(), seq![items.last()]));
        }
    }
}

/// The first groups hold no more items than all of them.
pub(crate) proof fn lemma_total_take<K, V>(groups: Seq<(K, Seq<V>)>, i: int)
    requires
        0 <= i <= groups.len(),
    ensures
        total(groups.take(i)) <= total(groups),
    decreases groups.len(),
{
    if i < groups.len() {
        lemma_total_take(groups.drop_last(), i);
        assert(groups.drop_last().take(i) =~= groups.take(i));
    } else {
        assert(groups.take(i) =~= groups);
    }
}

/// A new group is kept among the multiples exactly when it holds at least two items.
pub(crate) proof fn lemma_multiples_push<K, V>(groups: Seq<(K, Seq<V>)>, e: (K, Seq<V>))
    ensures
        multiples(groups.push(e)) == (if e.1.len() >= 2 {
            multiples(groups).push(e)
        } else {
            multiples(groups)
        }),
{
    assert(groups.push(e).drop_last() =~= groups);
}

/// Dropping the small groups does not add items.
pub(crate) proof fn lemma_multiples_total<K, V>(groups: Seq<(K, Seq<V>)>)
    ensures
        total(multiples(groups)) <= total(groups),
    decreases groups.len(),
{
    if groups.len() > 0 {
        lemma_multiples_total(groups.drop_last());
        if groups.last().1.len() >= 2 {
            lemma_total_push(multiples(groups.drop_last()), groups.last());
        }
    }
}

/// The position of the first `key` in `keys`, or -1 where it does not occur.
pub open spec fn key_index<K>(keys: Seq<K>, key: K) -> int
    decreases keys.len(),
{
    if keys.len() == 0 {
        -1
    } else {
        let r = key_index(keys.drop_last(), key);
        if r >= 0 {
            r
        } else if keys.last() == key {
            keys.len() - 1
        } else {
            -1
        }
    }
}

/// `key_index` finds the first occurrence of the key, or reports its absence.
pub(crate) proof fn lemma_key_index<K>(keys: Seq<K>, key: K)
    ensures
        -1 <= key_index(keys, key) < keys.len(),
        key_index(keys, key) == -1 <==> !keys.contains(key),
        key_index(keys, key) >= 0 ==> keys[key_index(keys, key)] == key,
        forall|j: int| 0 <= j < key_index(keys, key) ==> keys[j] != key,
    decreases keys.len(),
{
    if keys.len() > 0 {
        let d = keys.drop_last();
        lemma_key_index(d, key);
        assert(keys[keys.len() - 1] == keys.last());
        if d.contains(key) {
            let m = choose|m: int| 0 <= m < d.len() && d[m] == key;
            assert(keys[m] == key);
        }
        if keys.contains(key) && !d.contains(key) {
            let m = choose|m: int| 0 <= m < keys.len() && keys[m] == key;
            if m < keys.len() - 1 {
                assert(d[m] == key);
            }
        }
        assert forall|j: int| 0 <= j < key_index(keys, key) implies keys[j] != key by {
            assert(keys[j] == d[j]);
        }
    }
}

/// `acc` with the group `e` merged in: its files are added to the group with the same key, or
/// the group is added at the end where no group has that key.
pub open spec fn merge_entry<K, V>(acc: Seq<(K, Seq<V>)>, e: (K, Seq<V>)) -> Seq<(K, Seq<V>)> {
    let i = key_index(keys_of(acc), e.0);
    if i >= 0 {
        acc.update(i, (e.0, acc[i].1 + e.1))
    } else {
        acc.push(e)
    }
}

/// `acc` with the groups of `es` merged in, one after the other.
pub open spec fn merge_all<K, V>(acc: Seq<(K, Seq<V>)>, es: Seq<(K, Seq<V>)>) -> Seq<(K, Seq<V>)>
    decreases es.len(),
{
    if es.len() == 0 {
        acc
    } else {
        merge_entry(merge_all(acc, es.drop_last()), es.last())
    }
}

/// `acc` with the group `e` added at the end, unless a group with its key is there already.
pub open spec fn add_entry<K, V>(acc: Seq<(K, Seq<V>)>, e: (K, Seq<V>)) -> Seq<(K, Seq<V>)> {
    if key_index(keys_of(acc), e.0) >= 0 {
        acc
    } else {
        acc.push(e)
    }
}

/// `acc` with the groups of `es` added, one after the other.
pub open spec fn add_all<K, V>(acc: Seq<(K, Seq<V>)>, es: Seq<(K, Seq<V>)>) -> Seq<(K, Seq<V>)>
    decreases es.len(),
{
    if es.len() == 0 {
        acc
    } else {
        add_entry(add_all(acc, es.drop_last()), es.last())
    }
}

/// The items selected for a key all carry that key.
pub(crate) proof fn lemma_select_keys<K, V>(items: Seq<V>, key_of: spec_fn(V) -> K, k: K)
    ensures
        forall|j: int| 0 <= j < select(items.map_values(key_of), items, k).len()
            ==> key_of(#[trigger] select(items.map_values(key_of), items, k)[j]) == k,
    decreases items.len(),
{
    if items.len() > 0 {
        let d = items.drop_last();
        lemma_select_keys(d, key_of, k);
        assert(items.map_values(key_of).drop_last() =~= d.map_values(key_of));
        assert(items.map_values(key_of).last() == key_of(items.last()));
        let rest = select(d.map_values(key_of), d, k);
        assert forall|j: int| 0 <= j < select(items.map_values(key_of), items, k).len()
            implies key_of(#[trigger] select(items.map_values(key_of), items, k)[j]) == k by {
            if j < rest.len() {
                assert(select(items.map_values(key_of), items, k)[j] == rest[j]);
            }
        }
    }
}

/// Every item of a group carries the group's key: grouping items by a key computed from each
/// item puts an item only in the group of its own key.
pub proof fn lemma_group_members_share_key<K, V>(items: Seq<V>, key_of: spec_fn(V) -> K, g: int, j: int)
    requires
        0 <= g < grouping(items.map_values(key_of), items).len(),
        0 <= j < grouping(items.map_values(key_of), items)[g].1.len(),
    ensures
        key_of(grouping(items.map_values(key_of), items)[g].1[j]) == grouping(
            items.map_values(key_of),
            items,
        )[g].0,
{
    let k = first_keys(items.map_values(key_of))[g];
    lemma_select_keys(items, key_of, k);
}

/// Groups that each hold at least two items, under keys that are all different.
pub open spec fn distinct_multiples<K, V>(groups: Seq<(K, Seq<V>)>) -> bool {
    &&& keys_of(groups).no_duplicates()
    &&& forall|g: int| 0 <= g < groups.len() ==> (#[trigger] groups[g]).1.len() >= 2
}

/// Dropping the small groups keeps the keys distinct and adds no key.
pub(crate) proof fn lemma_multiples_keep<K, V>(groups: Seq<(K, Seq<V>)>)
    requires
        keys_of(groups).no_duplicates(),
    ensures
        distinct_multiples(multiples(groups)),
        forall|x: K| keys_of(multiples(groups)).contains(x) ==> keys_of(groups).contains(x),
    decreases groups.len(),
{
    if groups.len() > 0 {
        let d = groups.drop_last();
        assert(keys_of(d) =~= keys_of(groups).drop_last());
        lemma_multiples_keep(d);
        let m = multiples(d);
        if groups.last().1.len() >= 2 {
            let e = groups.last();
            assert(keys_of(m.push(e)) =~= keys_of(m).push(e.0));
            assert(keys_of(groups)[groups.len() - 1] == e.0);
            if keys_of(m).contains(e.0) {
                assert(keys_of(d).contains(e.0));
                let q = choose|q: int| 0 <= q < keys_of(d).len() && keys_of(d)[q] == e.0;
                assert(d[q] == groups[q]);
                assert(keys_of(groups)[q] == e.0);
            }
            assert forall|x: K| keys_of(m.push(e)).contains(x) implies keys_of(groups).contains(x) by {
                let q = choose|q: int| 0 <= q < keys_of(m.push(e)).len() && keys_of(m.push(e))[q] == x;
                if q < m.len() {
                    assert(keys_of(m)[q] == x);
                    assert(keys_of(m).contains(x));
                    assert(keys_of(d).contains(x));
                    let r = choose|r: int| 0 <= r < keys_of(d).len() && keys_of(d)[r] == x;
                    assert(d[r] == groups[r]);
                    assert(keys_of(groups)[r] == x);
                } else {
                    assert(keys_of(groups)[groups.len() - 1] == x);
                }
            }
        } else {
            assert forall|x: K| keys_of(m).contains(x) implies keys_of(groups).contains(x) by {
                assert(keys_of(d).contains(x));
                let r = choose|r: int| 0 <= r < keys_of(d).len() && keys_of(d)[r] == x;
                assert(d[r] == groups[r]);
                assert(keys_of(groups)[r] == x);
            }
        }
    }
}

/// Adding a group of at least two items under a new key keeps the groups distinct and large.
pub(crate) proof fn lemma_add_entry_keeps<K, V>(acc: Seq<(K, Seq<V>)>, e: (K, Seq<V>))
    requires
        distinct_multiples(acc),
        e.1.len() >= 2,
    ensures
        distinct_multiples(add_entry(acc, e)),
{
    lemma_key_index(keys_of(acc), e.0);
    if key_index(keys_of(acc), e.0) < 0 {
        assert(keys_of(acc.push(e)) =~= keys_of(acc).push(e.0));
    }
}

/// Merging a group of at least two items keeps the groups distinct and large.
pub(crate) proof fn lemma_merge_entry_keeps<K, V>(acc: Seq<(K, Seq<V>)>, e: (K, Seq<V>))
    requires
        distinct_multiples(acc),
        e.1.len() >= 2,
    ensures
        distinct_multiples(merge_entry(acc, e)),
{
    let i = key_index(keys_of(acc), e.0);
    lemma_key_index(keys_of(acc), e.0);
    if i < 0 {
        assert(keys_of(acc.push(e)) =~= keys_of(acc).push(e.0));
    } else {
        assert(keys_of(acc.update(i, (e.0, acc[i].1 + e.1))) =~= keys_of(acc));
    }
}

/// Adding groups of at least two items keeps the groups distinct and large.
pub(crate) proof fn lemma_add_all_keeps<K, V>(acc: Seq<(K, Seq<V>)>, es: Seq<(K, Seq<V>)>)
    requires
        distinct_multiples(acc),
        forall|g: int| 0 <= g < es.len() ==> (#[trigger] es[g]).1.len() >= 2,
    ensures
        distinct_multiples(add_all(acc, es)),
    decreases es.len(),
{
    if es.len() > 0 {
        lemma_add_all_keeps(acc, es.drop_last());
        assert(es[es.len() - 1] == es.last());
        lemma_add_entry_keeps(add_all(acc, es.drop_last()), es.last());
    }
}

/// Merging groups of at least two items keeps the groups distinct and large.
pub(crate) proof fn lemma_merge_all_keeps<K, V>(acc: Seq<(K, Seq<V>)>, es: Seq<(K, Seq<V>)>)
    requires
        distinct_multiples(acc),
        forall|g: int| 0 <= g < es.len() ==> (#[trigger] es[g]).1.len() >= 2,
    ensures
        distinct_multiples(merge_all(acc, es)),
    decreases es.len(),
{
    if es.len() > 0 {
        lemma_merge_all_keeps(acc, es.drop_last());
        assert(es[es.len() - 1] == es.last());
        lemma_merge_entry_keeps(merge_all(acc, es.drop_last()), es.last());
    }
}

/// The keys of a grouping are the distinct keys, each once.
pub(crate) proof fn lemma_grouping_distinct<K, V>(keys: Seq<K>, items: Seq<V>)
    ensures
        keys_of(grouping(keys, items)) == first_keys(keys),
        keys_of(grouping(keys, items)).no_duplicates(),
{
    assert(keys_of(grouping(keys, items)) =~= first_keys(keys));
    lemma_first_keys_distinct(keys);
}

/// Every item of every group carries that group's key.
pub open spec fn members_keyed<K, V>(groups: Seq<(K, Seq<V>)>, key_of: spec_fn(V) -> K) -> bool {
    forall|g: int, j: int| 0 <= g < groups.len() && 0 <= j < groups[g].1.len()
        ==> key_of(#[trigger] groups[g].1[j]) == groups[g].0
}

/// In a grouping by a key computed from each item, every item carries its group's key.
pub(crate) proof fn lemma_grouping_keyed<K, V>(items: Seq<V>, key_of: spec_fn(V) -> K)
    ensures
        members_keyed(grouping(items.map_values(key_of), items), key_of),
{
    assert forall|g: int, j: int| 0 <= g < grouping(items.map_values(key_of), items).len()
        && 0 <= j < grouping(items.map_values(key_of), items)[g].1.len()
        implies key_of(#[trigger] grouping(items.map_values(key_of), items)[g].1[j]) == grouping(
        items.map_values(key_of),
        items,
    )[g].0 by {
        lemma_group_members_share_key(items, key_of, g, j);
    }
}

/// Dropping the small groups keeps every item with its group's key.
pub(crate) proof fn lemma_multiples_keyed<K, V>(groups: Seq<(K, Seq<V>)>, key_of: spec_fn(V) -> K)
    requires
        members_keyed(groups, key_of),
    ensures
        members_keyed(multiples(groups), key_of),
    decreases groups.len(),
{
    if groups.len() > 0 {
        let d = groups.drop_last();
        assert forall|g: int, j: int| 0 <= g < d.len() && 0 <= j < d[g].1.len()
            implies key_of(#[trigger] d[g].1[j]) == d[g].0 by {
            assert(d[g] == groups[g]);
        }
        lemma_multiples_keyed(d, key_of);
        assert(groups[groups.len() - 1] == groups.last());
    }
}

/// Merging groups whose items carry their keys keeps every item with its group's key.
pub(crate) proof fn lemma_merge_all_keyed<K, V>(acc: Seq<(K, Seq<V>)>, es: Seq<(K, Seq<V>)>, key_of: spec_fn(V) -> K)
    requires
        members_keyed(acc, key_of),
        members_keyed(es, key_of),
    ensures
        members_keyed(merge_all(acc, es), key_of),
    decreases es.len(),
{
    if es.len() > 0 {
        let d = es.drop_last();
        assert forall|g: int, j: int| 0 <= g < d.len() && 0 <= j < d[g].1.len()
            implies key_of(#[trigger] d[g].1[j]) == d[g].0 by {
            assert(d[g] == es[g]);
        }
        lemma_merge_all_keyed(acc, d, key_of);
        let m = merge_all(acc, d);
        let e = es.last();
        assert(es[es.len() - 1] == e);
        let i = key_index(keys_of(m), e.0);
        lemma_key_index(keys_of(m), e.0);
        if i >= 0 {
            let u = m.update(i, (e.0, m[i].1 + e.1));
            assert(keys_of(m)[i] == m[i].0);
            assert forall|g: int, j: int| 0 <= g < u.len() && 0 <= j < u[g].1.len()
                implies key_of(#[trigger] u[g].1[j]) == u[g].0 by {
                if g == i {
                    if j < m[i].1.len() {
                        assert(u[g].1[j] == m[i].1[j]);
                    } else {
                        assert(u[g].1[j] == e.1[j - m[i].1.len()]);
                    }
                }
            }
        } else {
            let u = m.push(e);
            assert forall|g: int, j: int| 0 <= g < u.len() && 0 <= j < u[g].1.len()
                implies key_of(#[trigger] u[g].1[j]) == u[g].0 by {
                if g < m.len() {
                    assert(u[g] == m[g]);
                }
            }
        }
    }
}

/// Each selected item comes from a position of `items` whose key is the selected one.
pub(crate) proof fn lemma_select_origin<K, V>(keys: Seq<K>, items: Seq<V>, k: K, j: int)
    requires
        keys.len() == items.len(),
        0 <= j < select(keys, items, k).len(),
    ensures
        exists|q: int| 0 <= q < items.len() && keys[q] == k && items[q] == select(keys, items, k)[j],
    decreases items.len(),
{
    let ks = keys.drop_last();
    let its = items.drop_last();
    let rest = select(ks, its, k);
    if j < rest.len() {
        lemma_select_origin(ks, its, k, j);
        let q = choose|q: int| 0 <= q < its.len() && ks[q] == k && its[q] == rest[j];
        assert(keys[q] == ks[q] && items[q] == its[q]);
        assert(select(keys, items, k)[j] == rest[j]);
    } else {
        let q = items.len() - 1;
        assert(keys[q] == keys.last() && items[q] == items.last());
    }
}

/// Each item of a group comes from a position of `items` whose key is the group's.
pub(crate) proof fn lemma_grouping_origin<K, V>(keys: Seq<K>, items: Seq<V>, g: int, j: int)
    requires
        keys.len() == items.len(),
        0 <= g < grouping(keys, items).len(),
        0 <= j < grouping(keys, items)[g].1.len(),
    ensures
        exists|q: int| 0 <= q < items.len() && keys[q] == grouping(keys, items)[g].0 && items[q]
            == grouping(keys, items)[g].1[j],
{
    lemma_select_origin(keys, items, first_keys(keys)[g], j);
}

/// Each group kept among the multiples is one of the groups.
pub(crate) proof fn lemma_multiples_origin<K, V>(groups: Seq<(K, Seq<V>)>, g: int)
    requires
        0 <= g < multiples(groups).len(),
    ensures
        exists|h: int| 0 <= h < groups.len() && groups[h] == multiples(groups)[g],
    decreases groups.len(),
{
    let d = groups.drop_last();
    let m = multiples(d);
    if g < m.len() {
        lemma_multiples_origin(d, g);
        let h = choose|h: int| 0 <= h < d.len() && d[h] == m[g];
        assert(groups[h] == d[h]);
        if groups.last().1.len() >= 2 {
            assert(multiples(groups)[g] == m[g]);
        }
    } else {
        assert(groups[groups.len() - 1] == groups.last());
    }
}

/// Each group after adding groups is one that was there or one that was added.
pub(crate) proof fn lemma_add_all_origin<K, V>(acc: Seq<(K, Seq<V>)>, es: Seq<(K, Seq<V>)>, g: int)
    requires
        0 <= g < add_all(acc, es).len(),
    ensures
        (exists|a: int| 0 <= a < acc.len() && acc[a] == add_all(acc, es)[g]) || (exists|h: int|
            0 <= h < es.len() && es[h] == add_all(acc, es)[g]),
    decreases es.len(),
{
    if es.len() > 0 {
        let d = es.drop_last();
        let prev = add_all(acc, d);
        if g < prev.len() {
            lemma_add_all_origin(acc, d, g);
            assert(add_all(acc, es)[g] == prev[g]);
            if exists|h: int| 0 <= h < d.len() && d[h] == prev[g] {
                let h = choose|h: int| 0 <= h < d.len() && d[h] == prev[g];
                assert(es[h] == d[h]);
            }
        } else {
            assert(es[es.len() - 1] == es.last());
        }
    } else {
        assert(acc[g] == add_all(acc, es)[g]);
    }
}

/// The selection for a key repeats no item when the items are all different.
pub(crate) proof fn lemma_select_distinct<K, V>(keys: Seq<K>, items: Seq<V>, k: K)
    requires
        keys.len() == items.len(),
        items.no_duplicates(),
    ensures
        select(keys, items, k).no_duplicates(),
    decreases items.len(),
{
    if items.len() > 0 {
        let ks = keys.drop_last();
        let its = items.drop_last();
        assert(its.no_duplicates()) by {
            assert forall|a: int, b: int| 0 <= a < its.len() && 0 <= b < its.len() && a != b implies its[a] != its[b] by {
                assert(its[a] == items[a] && its[b] == items[b]);
            }
        }
        lemma_select_distinct(ks, its, k);
        let rest = select(ks, its, k);
        if keys.last() == k {
            assert forall|j: int| 0 <= j < rest.len() implies rest[j] != items.last() by {
                lemma_select_origin(ks, its, k, j);
                let q = choose|q: int| 0 <= q < its.len() && ks[q] == k && its[q] == rest[j];
                assert(items[q] == its[q]);
                assert(items[items.len() - 1] == items.last());
            }
            assert(select(keys, items, k) == rest.push(items.last()));
            assert forall|a: int, b: int| 0 <= a < rest.len() + 1 && 0 <= b < rest.len() + 1 && a != b
                implies rest.push(items.last())[a] != rest.push(items.last())[b] by {
                if a < rest.len() && b < rest.len() {
                } else if a < rest.len() {
                    assert(rest.push(items.last())[b] == items.last());
                } else {
                    assert(rest.push(items.last())[a] == items.last());
                }
            }
        }
    }
}

/// Grouping items that are all different puts no item in two places.
pub proof fn lemma_grouping_members_distinct<K, V>(keys: Seq<K>, items: Seq<V>)
    requires
        keys.len() == items.len(),
        items.no_duplicates(),
    ensures
        forall|g1: int, j1: int, g2: int, j2: int|
            0 <= g1 < grouping(keys, items).len() && 0 <= j1 < grouping(keys, items)[g1].1.len()
                && 0 <= g2 < grouping(keys, items).len() && 0 <= j2 < grouping(keys, items)[g2].1.len()
                && (g1 != g2 || j1 != j2) ==> #[trigger] grouping(keys, items)[g1].1[j1]
                != #[trigger] grouping(keys, items)[g2].1[j2],
{
    let gr = grouping(keys, items);
    lemma_grouping_distinct(keys, items);
    assert forall|g1: int, j1: int, g2: int, j2: int|
        0 <= g1 < gr.len() && 0 <= j1 < gr[g1].1.len() && 0 <= g2 < gr.len() && 0 <= j2 < gr[g2].1.len()
            && (g1 != g2 || j1 != j2) implies #[trigger] gr[g1].1[j1] != #[trigger] gr[g2].1[j2] by {
        if g1 == g2 {
            lemma_select_distinct(keys, items, first_keys(keys)[g1]);
        } else {
            lemma_grouping_origin(keys, items, g1, j1);
            lemma_grouping_origin(keys, items, g2, j2);
            let q1 = choose|q: int| 0 <= q < items.len() && keys[q] == gr[g1].0 && items[q] == gr[g1].1[j1];
            let q2 = choose|q: int| 0 <= q < items.len() && keys[q] == gr[g2].0 && items[q] == gr[g2].1[j2];
            assert(keys_of(gr)[g1] == gr[g1].0 && keys_of(gr)[g2] == gr[g2].0);
            assert(gr[g1].0 != gr[g2].0);
        }
    }
}

/// Every item whose key is `k` is selected for `k`; of two such items the earlier one comes
/// first.
pub(crate) proof fn lemma_select_together<K, V>(keys: Seq<K>, items: Seq<V>, k: K, q1: int, q2: int)
    requires
        keys.len() == items.len(),
        0 <= q1 < q2 < items.len(),
        keys[q1] == k,
        keys[q2] == k,
    ensures
        exists|j1: int, j2: int| 0 <= j1 < j2 < select(keys, items, k).len()
            && select(keys, items, k)[j1] == items[q1] && select(keys, items, k)[j2] == items[q2],
    decreases items.len(),
{
    let ks = keys.drop_last();
    let its = items.drop_last();
    let rest = select(ks, its, k);
    if q2 == items.len() - 1 {
        lemma_select_member(ks, its, k, q1);
        let j1 = choose|j: int| 0 <= j < rest.len() && rest[j] == its[q1];
        assert(keys[q2] == keys.last());
        assert(select(keys, items, k) == rest.push(items.last()));
        assert(select(keys, items, k)[j1] == items[q1]);
        assert(select(keys, items, k)[rest.len() as int] == items[q2]);
    } else {
        lemma_select_together(ks, its, k, q1, q2);
        let (j1, j2) = choose|j1: int, j2: int| 0 <= j1 < j2 < rest.len() && rest[j1] == its[q1] && rest[j2] == its[q2];
        if keys.last() == k {
            assert(select(keys, items, k) == rest.push(items.last()));
            assert(select(keys, items, k)[j1] == items[q1]);
            assert(select(keys, items, k)[j2] == items[q2]);
        } else {
            assert(select(keys, items, k)[j1] == items[q1]);
        }
    }
}

/// Every item whose key is `k` is selected for `k`.
pub(crate) proof fn lemma_select_member<K, V>(keys: Seq<K>, items: Seq<V>, k: K, q: int)
    requires
        keys.len() == items.len(),
        0 <= q < items.len(),
        keys[q] == k,
    ensures
        exists|j: int| 0 <= j < select(keys, items, k).len() && select(keys, items, k)[j] == items[q],
    decreases items.len(),
{
    let ks = keys.drop_last();
    let its = items.drop_last();
    let rest = select(ks, its, k);
    if q == items.len() - 1 {
        assert(keys.last() == k);
        assert(select(keys, items, k)[rest.len() as int] == items[q]);
    } else {
        lemma_select_member(ks, its, k, q);
        let j = choose|j: int| 0 <= j < rest.len() && rest[j] == its[q];
        assert(select(keys, items, k)[j] == items[q]);
    }
}

/// Two items with the same key end up in the same group, in their order.
pub proof fn lemma_same_key_same_group<K, V>(keys: Seq<K>, items: Seq<V>, a: int, b: int)
    requires
        keys.len() == items.len(),
        0 <= a < b < items.len(),
        keys[a] == keys[b],
    ensures
        exists|g: int, j1: int, j2: int|
            0 <= g < grouping(keys, items).len() && 0 <= j1 < j2 < grouping(keys, items)[g].1.len()
                && grouping(keys, items)[g].0 == keys[a] && #[trigger] grouping(keys, items)[g].1[j1] == items[a]
                && #[trigger] grouping(keys, items)[g].1[j2] == items[b],
{
    let k = keys[a];
    lemma_first_keys_contains(keys, k);
    assert(keys.contains(k));
    let g = choose|g: int| 0 <= g < first_keys(keys).len() && first_keys(keys)[g] == k;
    lemma_select_together(keys, items, k, a, b);
    let sel = select(keys, items, k);
    let (j1, j2) = choose|j1: int, j2: int| 0 <= j1 < j2 < sel.len() && sel[j1] == items[a] && sel[j2] == items[b];
    assert(grouping(keys, items)[g] == (k, sel));
    assert(grouping(keys, items)[g].1[j1] == items[a]);
    assert(grouping(keys, items)[g].1[j2] == items[b]);
}

/// A group of at least two items is kept among the multiples.
pub(crate) proof fn lemma_multiples_keeps_large<K, V>(groups: Seq<(K, Seq<V>)>, h: int)
    requires
        0 <= h < groups.len(),
        groups[h].1.len() >= 2,
    ensures
        exists|g: int| 0 <= g < multiples(groups).len() && multiples(groups)[g] == groups[h],
    decreases groups.len(),
{
    let d = groups.drop_last();
    if h == groups.len() - 1 {
        assert(multiples(groups)[multiples(d).len() as int] == groups[h]);
    } else {
        lemma_multiples_keeps_large(d, h);
        let g = choose|g: int| 0 <= g < multiples(d).len() && multiples(d)[g] == d[h];
        assert(multiples(groups)[g] == groups[h]);
    }
}

/// `x` and `y` are in the same group, `x` before `y`.
pub open spec fn together<K, V>(groups: Seq<(K, Seq<V>)>, x: V, y: V) -> bool {
    exists|g: int, k1: int, k2: int|
        0 <= g < groups.len() && 0 <= k1 < k2 < groups[g].1.len() && #[trigger] groups[g].1[k1] == x
            && #[trigger] groups[g].1[k2] == y
}

/// Merging a group keeps together what was together, and puts the group's items together.
pub(crate) proof fn lemma_merge_entry_together<K, V>(acc: Seq<(K, Seq<V>)>, e: (K, Seq<V>))
    ensures
        forall|x: V, y: V| together(acc, x, y) ==> #[trigger] together(merge_entry(acc, e), x, y),
        forall|j1: int, j2: int| 0 <= j1 < j2 < e.1.len() ==> together(merge_entry(acc, e), #[trigger] e.1[j1], #[trigger] e.1[j2]),
{
    let r = merge_entry(acc, e);
    let i = key_index(keys_of(acc), e.0);
    lemma_key_index(keys_of(acc), e.0);
    assert forall|x: V, y: V| together(acc, x, y) implies #[trigger] together(r, x, y) by {
        let (g, k1, k2) = choose|g: int, k1: int, k2: int|
            0 <= g < acc.len() && 0 <= k1 < k2 < acc[g].1.len() && #[trigger] acc[g].1[k1] == x
                && #[trigger] acc[g].1[k2] == y;
        if i >= 0 && g == i {
            assert(r[g].1 == acc[i].1 + e.1);
            assert(r[g].1[k1] == x && r[g].1[k2] == y);
        } else {
            assert(r[g] == acc[g]);
            assert(r[g].1[k1] == x && r[g].1[k2] == y);
        }
    }
    assert forall|j1: int, j2: int| 0 <= j1 < j2 < e.1.len() implies together(r, #[trigger] e.1[j1], #[trigger] e.1[j2]) by {
        if i >= 0 {
            let n = acc[i].1.len();
            assert(r[i].1 == acc[i].1 + e.1);
            assert(r[i].1[n + j1] == e.1[j1] && r[i].1[n + j2] == e.1[j2]);
        } else {
            let g = acc.len() as int;
            assert(r[g] == e);
            assert(r[g].1[j1] == e.1[j1] && r[g].1[j2] == e.1[j2]);
        }
    }
}

/// Merging groups keeps together what was together, and puts the items of each merged group
/// together.
pub(crate) proof fn lemma_merge_all_together<K, V>(acc: Seq<(K, Seq<V>)>, es: Seq<(K, Seq<V>)>)
    ensures
        forall|x: V, y: V| together(acc, x, y) ==> #[trigger] together(merge_all(acc, es), x, y),
        forall|h: int, j1: int, j2: int| 0 <= h < es.len() && 0 <= j1 < j2 < es[h].1.len()
            ==> together(merge_all(acc, es), #[trigger] es[h].1[j1], #[trigger] es[h].1[j2]),
    decreases es.len(),
{
    if es.len() > 0 {
        let d = es.drop_last();
        let prev = merge_all(acc, d);
        lemma_merge_all_together(acc, d);
        lemma_merge_entry_together(prev, es.last());
        assert forall|h: int, j1: int, j2: int| 0 <= h < es.len() && 0 <= j1 < j2 < es[h].1.len()
            implies together(merge_all(acc, es), #[trigger] es[h].1[j1], #[trigger] es[h].1[j2]) by {
            if h < d.len() {
                assert(es[h] == d[h]);
                assert(together(prev, d[h].1[j1], d[h].1[j2]));
            } else {
                assert(es[h] == es.last());
            }
        }
    }
}

/// Dropping the small groups keeps together what was together.
pub(crate) proof fn lemma_multiples_together<K, V>(groups: Seq<(K, Seq<V>)>, x: V, y: V)
    requires
        together(groups, x, y),
    ensures
        together(multiples(groups), x, y),
{
    let (h, k1, k2) = choose|g: int, k1: int, k2: int|
        0 <= g < groups.len() && 0 <= k1 < k2 < groups[g].1.len() && #[trigger] groups[g].1[k1] == x
            && #[trigger] groups[g].1[k2] == y;
    lemma_multiples_keeps_large(groups, h);
    let g = choose|g: int| 0 <= g < multiples(groups).len() && multiples(groups)[g] == groups[h];
    assert(multiples(groups)[g].1[k1] == x && multiples(groups)[g].1[k2] == y);
}

/// Two items with the same key are together in the grouping.
pub(crate) proof fn lemma_same_key_together<K, V>(keys: Seq<K>, items: Seq<V>, a: int, b: int)
    requires
        keys.len() == items.len(),
        0 <= a < b < items.len(),
        keys[a] == keys[b],
    ensures
        together(grouping(keys, items), items[a], items[b]),
{
    lemma_same_key_same_group(keys, items, a, b);
}

/// Adding groups keeps together what was together.
pub(crate) proof fn lemma_add_all_keeps_together<K, V>(acc: Seq<(K, Seq<V>)>, es: Seq<(K, Seq<V>)>, x: V, y: V)
    requires
        together(acc, x, y),
    ensures
        together(add_all(acc, es), x, y),
    decreases es.len(),
{
    if es.len() > 0 {
        lemma_add_all_keeps_together(acc, es.drop_last(), x, y);
        let prev = add_all(acc, es.drop_last());
        let (g, k1, k2) = choose|g: int, k1: int, k2: int|
            0 <= g < prev.len() && 0 <= k1 < k2 < prev[g].1.len() && #[trigger] prev[g].1[k1] == x
                && #[trigger] prev[g].1[k2] == y;
        let r = add_all(acc, es);
        assert(r[g] == prev[g]);
        assert(r[g].1[k1] == x && r[g].1[k2] == y);
    }
}

/// The keys after adding groups are keys that were there or keys of the added groups.
pub(crate) proof fn lemma_add_all_keys<K, V>(acc: Seq<(K, Seq<V>)>, es: Seq<(K, Seq<V>)>, key: K)
    requires
        keys_of(add_all(acc, es)).contains(key),
    ensures
        keys_of(acc).contains(key) || keys_of(es).contains(key),
    decreases es.len(),
{
    if es.len() > 0 {
        let d = es.drop_last();
        let prev = add_all(acc, d);
        let r = add_all(acc, es);
        let m = choose|m: int| 0 <= m < keys_of(r).len() && keys_of(r)[m] == key;
        if m < prev.len() {
            assert(r[m] == prev[m]);
            assert(keys_of(prev)[m] == key);
            lemma_add_all_keys(acc, d, key);
            if keys_of(d).contains(key) {
                let q = choose|q: int| 0 <= q < keys_of(d).len() && keys_of(d)[q] == key;
                assert(keys_of(es)[q] == key);
            }
        } else {
            assert(r[m] == es.last());
            assert(keys_of(es)[es.len() - 1] == key);
        }
    }
}

/// Adding groups whose keys are all different puts the items of an added group together when
/// its key was not there before.
pub(crate) proof fn lemma_add_all_together<K, V>(acc: Seq<(K, Seq<V>)>, es: Seq<(K, Seq<V>)>, h: int, j1: int, j2: int)
    requires
        keys_of(es).no_duplicates(),
        0 <= h < es.len(),
        0 <= j1 < j2 < es[h].1.len(),
        !keys_of(acc).contains(es[h].0),
    ensures
        together(add_all(acc, es), es[h].1[j1], es[h].1[j2]),
    decreases es.len(),
{
    let d = es.drop_last();
    let prev = add_all(acc, d);
    assert(keys_of(d).no_duplicates()) by {
        assert forall|a: int, b: int| 0 <= a < d.len() && 0 <= b < d.len() && a != b
            implies keys_of(d)[a] != keys_of(d)[b] by {
            assert(keys_of(d)[a] == keys_of(es)[a] && keys_of(d)[b] == keys_of(es)[b]);
        }
    }
    if h == es.len() - 1 {
        let e = es.last();
        assert(es[h] == e);
        if keys_of(prev).contains(e.0) {
            lemma_add_all_keys(acc, d, e.0);
            let q = choose|q: int| 0 <= q < keys_of(d).len() && keys_of(d)[q] == e.0;
            assert(keys_of(es)[q] == e.0 && keys_of(es)[h] == e.0);
        }
        lemma_key_index(keys_of(prev), e.0);
        let r = add_all(acc, es);
        assert(r == prev.push(e));
        let g = prev.len() as int;
        assert(r[g].1[j1] == e.1[j1] && r[g].1[j2] == e.1[j2]);
    } else {
        assert(es[h] == d[h]);
        lemma_add_all_together(acc, d, h, j1, j2);
        let x = es[h].1[j1];
        let y = es[h].1[j2];
        let (g, k1, k2) = choose|g: int, k1: int, k2: int|
            0 <= g < prev.len() && 0 <= k1 < k2 < prev[g].1.len() && #[trigger] prev[g].1[k1] == x
                && #[trigger] prev[g].1[k2] == y;
        let r = add_all(acc, es);
        assert(r[g] == prev[g]);
        assert(r[g].1[k1] == x && r[g].1[k2] == y);
    }
}

/// All the items of the groups, each as many times as the groups hold it.
pub open spec fn members_multiset<K, V>(groups: Seq<(K, Seq<V>)>) -> Multiset<V>
    decreases groups.len(),
{
    if groups.len() == 0 {
        Multiset::empty()
    } else {
        members_multiset(groups.drop_last()).add(groups.last().1.to_multiset())
    }
}

/// Adding one item to a group adds it once to the members.
pub(crate) proof fn lemma_members_grow<K, V>(groups: Seq<(K, Seq<V>)>, i: int, x: V)
    requires
        0 <= i < groups.len(),
    ensures
        members_multiset(groups.update(i, (groups[i].0, groups[i].1.push(x)))) =~= members_multiset(groups).insert(x),
    decreases groups.len(),
{
    broadcast use vstd::seq_lib::group_to_multiset_ensures;
    let u = groups.update(i, (groups[i].0, groups[i].1.push(x)));
    let d = groups.drop_last();
    if i == groups.len() - 1 {
        assert(u.drop_last() =~= d);
        assert(groups[i] == groups.last());
        assert(groups.last().1.push(x).to_multiset() =~= groups.last().1.to_multiset().insert(x));
    } else {
        lemma_members_grow(d, i, x);
        assert(u.drop_last() =~= d.update(i, (d[i].0, d[i].1.push(x))));
        assert(u.last() == groups.last());
    }
}

/// Grouping is a partition of the items: no group is empty, and the groups together hold
/// every item exactly as many times as the items do.
pub proof fn lemma_grouping_partitions<K, V>(keys: Seq<K>, items: Seq<V>)
    requires
        keys.len() == items.len(),
    ensures
        forall|g: int| 0 <= g < grouping(keys, items).len() ==> (#[trigger] grouping(keys, items)[g]).1.len() > 0,
        members_multiset(grouping(keys, items)) =~= items.to_multiset(),
    decreases items.len(),
{
    broadcast use vstd::seq_lib::group_to_multiset_ensures;
    assert forall|g: int| 0 <= g < grouping(keys, items).len() implies (#[trigger] grouping(keys, items)[g]).1.len() > 0 by {
        let k = first_keys(keys)[g];
        lemma_first_keys_contains(keys, k);
        assert(first_keys(keys).contains(k));
        let q = choose|q: int| 0 <= q < keys.len() && keys[q] == k;
        lemma_select_member(keys, items, k, q);
    }
    if items.len() == 0 {
        assert(grouping(keys, items) =~= Seq::<(K, Seq<V>)>::empty());
        assert(items =~= Seq::<V>::empty());
        assert(items.to_multiset() =~= Multiset::<V>::empty()) by {
            assert(items.to_multiset().len() == 0);
        }
    } else {
        let ks = keys.drop_last();
        let its = items.drop_last();
        let k = keys.last();
        let x = items.last();
        lemma_grouping_partitions(ks, its);
        assert(ks.push(k) =~= keys);
        assert(its.push(x) =~= items);
        let g0 = grouping(ks, its);
        let i = lemma_grouping_push(ks, its, k, x);
        if first_keys(ks).contains(k) {
            assert(g0[i].0 == k);
            lemma_members_grow(g0, i, x);
        } else {
            let e = (k, seq![x]);
            assert(g0.push(e).drop_last() =~= g0);
            assert(seq![x] =~= Seq::<V>::empty().push(x));
            assert(Seq::<V>::empty().to_multiset().len() == 0);
            assert(Seq::<V>::empty().to_multiset() =~= Multiset::<V>::empty());
            assert(seq![x].to_multiset() =~= Multiset::<V>::empty().insert(x));
            assert(members_multiset(g0.push(e)) =~= members_multiset(g0).insert(x));
        }
    }
}

} // verus!
