use crate::{
    ascending, group_of, keys_of, lemma_ascending_distinct, lemma_group_of_distinct,
    lemma_group_of_push, lemma_occurring_key_is_present, occurrences, HasItemKey,
};
use std::collections::BTreeMap;
use vstd::laws_cmp::obeys_cmp;
use vstd::prelude::*;
use vstd::std_specs::iter::IteratorSpec;

verus! {

broadcast use vstd::seq_lib::group_filter_ensures;

/// Counts the items of `list` by key and keeps the keys that occur more than once.
pub fn get_dups<T: HasItemKey<K>, K: Ord>(list: &[T]) -> (r: BTreeMap<K, usize>)
    requires
        obeys_cmp::<K>(),
    ensures
        forall|k: K| r@.contains_key(k) <==> occurrences(list@, k) >= 2,
        forall|k: K| #[trigger] r@.contains_key(k) ==> r@[k] == occurrences(list@, k),
{
    let mut counts: BTreeMap<K, usize> = BTreeMap::new();
    let mut i: usize = 0;
    while i < list.len()
        invariant
            obeys_cmp::<K>(),
            i <= list@.len(),
            forall|k: K| counts@.contains_key(k) <==> occurrences(list@.take(i as int), k) > 0,
            forall|k: K| #[trigger] counts@.contains_key(k) ==> counts@[k] == occurrences(list@.take(i as int), k),
        decreases list@.len() - i,
    {
        let key = list[i].get_item_key();
        proof {
            assert(list@.take(i + 1) =~= list@.take(i as int).push(list@[i as int]));
            assert forall|k: K| true implies group_of(list@.take(i + 1), k) == (if list@[i as int].item_key() == k {
                group_of(list@.take(i as int), k).push(list@[i as int])
            } else {
                group_of(list@.take(i as int), k)
            }) by {
                lemma_group_of_push(list@.take(i as int), list@[i as int], k);
            }
            assert(group_of(list@.take(i as int), key).len() <= i);
        }
        let n: usize = match counts.get(&key) {
            Some(c) => *c + 1,
            None => 1,
        };
        counts.insert(key, n);
        i = i + 1;
    }
    assert(list@.take(list@.len() as int) =~= list@);

    let mut dups: BTreeMap<K, usize> = BTreeMap::new();
    let mut j: usize = 0;
    while j < list.len()
        invariant
            obeys_cmp::<K>(),
            j <= list@.len(),
            forall|k: K| counts@.contains_key(k) <==> occurrences(list@, k) > 0,
            forall|k: K| #[trigger] counts@.contains_key(k) ==> counts@[k] == occurrences(list@, k),
            forall|k: K| dups@.contains_key(k) <==> (occurrences(list@, k) >= 2 && exists|m: int| 0 <= m < j && (#[trigger] list@[m]).item_key() == k),
            forall|k: K| #[trigger] dups@.contains_key(k) ==> dups@[k] == occurrences(list@, k),
        decreases list@.len() - j,
    {
        let key = list[j].get_item_key();
        proof {
            assert(group_of(list@, key).contains(list@[j as int]));
        }
        match counts.get(&key) {
            Some(c) => {
                if *c > 1 {
                    dups.insert(key, *c);
                }
            },
            None => {},
        }
        j = j + 1;
    }
    proof {
        assert forall|k: K| occurrences(list@, k) >= 2 implies dups@.contains_key(k) by {
            lemma_occurring_key_is_present(list@, k);
        }
    }
    dups
}

/// The items that remain after removing duplicates, one per key, in ascending key order.
#[derive(Debug)]
pub struct ItemSet<T>(Vec<T>);

impl<T> View for ItemSet<T> {
    type V = Seq<T>;

    closed spec fn view(&self) -> Seq<T> {
        self.0@
    }
}

impl<T> core::ops::Deref for ItemSet<T> {
    type Target = Vec<T>;

    fn deref(&self) -> (r: &Vec<T>)
        ensures
            r@ == self@,
    {
        &self.0
    }
}

impl<T> ItemSet<T> {
    pub fn into_inner(self) -> (r: Vec<T>)
        ensures
            r@ == self@,
    {
        self.0
    }
}

/// The outcome of `dedup`: the kept items and, for each repeated key, the others.
#[derive(Debug)]
pub struct Dedup<T, K> {
    pub set: ItemSet<T>,
    pub removed: BTreeMap<K, Vec<T>>,
}

/// The keys of a grouping, in ascending order, read from the items of each group.
fn ordered_group_keys<T: HasItemKey<K>, K: Ord>(groups: &BTreeMap<K, Vec<T>>) -> (r: Vec<K>)
    requires
        obeys_cmp::<K>(),
        forall|k: K| #[trigger] groups@.contains_key(k) ==> groups@[k]@.len() > 0 && groups@[k]@[0].item_key() == k,
    ensures
        ascending(r@),
        r@.no_duplicates(),
        r@.to_set() == groups@.dom(),
{
    broadcast use vstd::std_specs::btree::group_btree_axioms;
    let mut r: Vec<K> = Vec::new();
    let iter = groups.iter();
    let ghost s0 = iter.remaining();
    for kv in it: iter
        invariant
            it.seq() == s0,
            forall|k: K| #[trigger] groups@.contains_key(k) ==> groups@[k]@.len() > 0 && groups@[k]@[0].item_key() == k,
            s0.len() == groups@.dom().len(),
            forall|i: int| 0 <= i < s0.len() ==> #[trigger] groups@.contains_key(*s0[i].0) && groups@[*s0[i].0] == *s0[i].1,
            r@ == s0.take(it.index()).map_values(|kv: (&K, &Vec<T>)| *kv.0),
    {
        assert(kv == s0[it.index()]);
        assert(groups@.contains_key(*s0[it.index()].0));
        let k = kv.1[0].get_item_key();
        r.push(k);
    }
    proof {
        assert(s0.take(s0.len() as int) =~= s0);
        assert(r@ == s0.map_values(|kv: (&K, &Vec<T>)| *kv.0));
        assert forall|k: K| groups@.contains_key(k) implies r@.contains(k) by {
            let i = choose|i: int| 0 <= i < s0.len() && s0[i] == (&k, &groups@[k]);
            assert(r@[i] == k);
        }
        assert forall|k: K| r@.contains(k) implies groups@.contains_key(k) by {
            let i = choose|i: int| 0 <= i < r@.len() && r@[i] == k;
            assert(groups@.contains_key(*s0[i].0));
        }
        assert(r@.to_set() =~= groups@.dom());
        lemma_ascending_distinct(r@);
    }
    r
}

/// What `dedup` returns for the list `s`.
///
/// One item is kept per key: the last one, in ascending key order. A key that
/// occurs twice or more maps in `removed` to its other items, in their original
/// order.
pub open spec fn is_dedup_of<T: HasItemKey<K>, K: Ord>(d: Dedup<T, K>, s: Seq<T>) -> bool {
    &&& ascending(keys_of(d.set@))
    &&& keys_of(d.set@).no_duplicates()
    &&& forall|k: K| keys_of(d.set@).contains(k) <==> occurrences(s, k) > 0
    &&& forall|i: int| 0 <= i < d.set@.len() ==> #[trigger] d.set@[i] == group_of(s, d.set@[i].item_key()).last()
    &&& forall|k: K| d.removed@.contains_key(k) <==> occurrences(s, k) >= 2
    &&& forall|k: K| #[trigger] d.removed@.contains_key(k) ==> d.removed@[k]@ == group_of(s, k).drop_last()
    &&& forall|k: K| #[trigger] d.removed@.contains_key(k) ==> d.removed@[k]@.len() == occurrences(s, k) - 1
}

/// The items that `d` removed for the key `k`: none if it has no entry for `k`.
pub open spec fn removed_for<T, K>(d: Dedup<T, K>, k: K) -> Seq<T> {
    if d.removed@.contains_key(k) {
        d.removed@[k]@
    } else {
        Seq::empty()
    }
}

/// Per key, the removed items followed by the kept one are the items of the
/// input with that key, in their original order: together, the kept and the
/// removed items are the input's items, each once.
pub proof fn lemma_dedup_partition<T: HasItemKey<K>, K: Ord>(s: Seq<T>, d: Dedup<T, K>, k: K)
    requires
        is_dedup_of(d, s),
    ensures
        removed_for(d, k) + group_of(d.set@, k) == group_of(s, k),
{
    let g = group_of(s, k);
    if occurrences(s, k) == 0 {
        assert(!keys_of(d.set@).contains(k));
        lemma_group_of_distinct(d.set@, k);
        assert(removed_for(d, k) + group_of(d.set@, k) =~= g);
    } else {
        assert(keys_of(d.set@).contains(k));
        let i = choose|i: int| 0 <= i < keys_of(d.set@).len() && keys_of(d.set@)[i] == k;
        assert(d.set@[i].item_key() == k);
        lemma_group_of_distinct(d.set@, k);
        assert(group_of(d.set@, k) == seq![g.last()]);
        if occurrences(s, k) >= 2 {
            assert(removed_for(d, k) + group_of(d.set@, k) =~= g.drop_last().push(g.last()));
        } else {
            assert(removed_for(d, k) + group_of(d.set@, k) =~= g);
        }
    }
}

/// Keeps the last item of each key and sets the earlier ones aside, by key.
///
/// The kept items come in ascending key order. A key that occurs once has no
/// entry in `removed`; for the others, `removed` holds the earlier items in
/// their original order.
pub fn dedup<T: HasItemKey<K>, K: Ord>(list: Vec<T>) -> (r: Dedup<T, K>)
    requires
        obeys_cmp::<K>(),
    ensures
        is_dedup_of(r, list@),
{
    broadcast use vstd::std_specs::btree::group_btree_axioms;
    let ghost s0 = list@;
    let mut groups: BTreeMap<K, Vec<T>> = BTreeMap::new();
    let iter = list.into_iter();
    assert(iter.remaining() == s0);
    for item in it: iter
        invariant
            obeys_cmp::<K>(),
            it.seq() == s0,
            forall|k: K| groups@.contains_key(k) <==> occurrences(s0.take(it.index()), k) > 0,
            forall|k: K| #[trigger] groups@.contains_key(k) ==> groups@[k]@ == group_of(s0.take(it.index()), k),
    {
        let ghost n = it.index();
        let key = item.get_item_key();
        proof {
            assert(item == s0[n]);
            assert(s0.take(n + 1) =~= s0.take(n).push(item));
            assert forall|k: K| true implies group_of(s0.take(n + 1), k) == (if item.item_key() == k {
                group_of(s0.take(n), k).push(item)
            } else {
                group_of(s0.take(n), k)
            }) by {
                lemma_group_of_push(s0.take(n), item, k);
            }
        }
        let mut group = match groups.remove(&key) {
            Some(g) => g,
            None => Vec::new(),
        };
        group.push(item);
        groups.insert(key, group);
    }
    assert(s0.take(s0.len() as int) =~= s0);
    proof {
        assert forall|k: K| #[trigger] groups@.contains_key(k) implies groups@[k]@.len() > 0 && groups@[k]@[0].item_key() == k by {
            assert(group_of(s0, k).len() > 0);
            s0.lemma_filter_pred(|x: T| x.item_key() == k, 0);
        }
    }

    let order = ordered_group_keys(&groups);
    let mut set: Vec<T> = Vec::new();
    let mut removed: BTreeMap<K, Vec<T>> = BTreeMap::new();
    let ghost ord = order@;
    let ghost g0 = groups@;
    let iter = order.into_iter();
    assert(iter.remaining() == ord);
    for key in it: iter
        invariant
            obeys_cmp::<K>(),
            it.seq() == ord,
            ord.no_duplicates(),
            forall|k: K| g0.contains_key(k) <==> ord.contains(k),
            forall|k: K| #[trigger] g0.contains_key(k) ==> g0[k]@ == group_of(s0, k) && group_of(s0, k).len() > 0,
            forall|i: int| it.index() <= i < ord.len() ==> #[trigger] groups@.contains_key(ord[i]) && groups@[ord[i]] == g0[ord[i]],
            keys_of(set@) == ord.take(it.index()),
            forall|i: int| 0 <= i < set@.len() ==> #[trigger] set@[i] == group_of(s0, set@[i].item_key()).last(),
            forall|k: K| removed@.contains_key(k) <==> (ord.take(it.index()).contains(k) && occurrences(s0, k) >= 2),
            forall|k: K| #[trigger] removed@.contains_key(k) ==> removed@[k]@ == group_of(s0, k).drop_last(),
    {
        let ghost j = it.index();
        let ghost set_before = set@;
        let ghost removed_before = removed@;
        let ghost groups_before = groups@;
        assert(key == ord[j]);
        assert(ord.contains(ord[j]));
        assert(g0.contains_key(key));
        assert(!ord.take(j).contains(key)) by {
            if ord.take(j).contains(key) {
                let m = choose|m: int| 0 <= m < j && #[trigger] ord.take(j)[m] == key;
                assert(ord[m] == ord[j]);
            }
        }
        let mut group = groups.remove(&key).unwrap();
        let last = group.pop().unwrap();
        proof {
            let gk = group_of(s0, key);
            assert(last == gk.last());
            s0.lemma_filter_pred(|x: T| x.item_key() == key, gk.len() - 1);
            assert(last.item_key() == key);
            assert(ord.take(j + 1) =~= ord.take(j).push(key));
            assert forall|i: int| j + 1 <= i < ord.len() implies #[trigger] groups@.contains_key(ord[i]) && groups@[ord[i]] == g0[ord[i]] by {
                assert(ord[i] != ord[j]);
                assert(groups_before.contains_key(ord[i]));
            }
        }
        set.push(last);
        proof {
            assert(keys_of(set@) =~= keys_of(set_before).push(key));
            assert forall|i: int| 0 <= i < set@.len() implies #[trigger] set@[i] == group_of(s0, set@[i].item_key()).last() by {
                if i < set_before.len() {
                    assert(set@[i] == set_before[i]);
                }
            }
        }
        if group.len() > 0 {
            removed.insert(key, group);
        }
        proof {
            assert forall|k: K| removed@.contains_key(k) <==> (ord.take(j + 1).contains(k) && occurrences(s0, k) >= 2) by {
                if k == key {
                    assert(ord.take(j + 1)[j] == key);
                } else {
                    if ord.take(j + 1).contains(k) {
                        let m = choose|m: int| 0 <= m < j + 1 && #[trigger] ord.take(j + 1)[m] == k;
                        assert(ord.take(j)[m] == k);
                    }
                    if ord.take(j).contains(k) {
                        let m = choose|m: int| 0 <= m < j && #[trigger] ord.take(j)[m] == k;
                        assert(ord.take(j + 1)[m] == k);
                    }
                }
            }
        }
    }
    proof {
        assert(ord.take(ord.len() as int) =~= ord);
        assert(keys_of(set@) == ord);
        assert forall|k: K| #[trigger] removed@.contains_key(k) implies removed@[k]@.len() == occurrences(s0, k) - 1 by {}
    }
    Dedup { set: ItemSet(set), removed }
}

} // verus!

