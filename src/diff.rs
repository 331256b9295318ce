use crate::{
    ascending, evicted, group_of, keys_of, lemma_ascending_distinct, lemma_ascending_push,
    lemma_ascending_unique, lemma_group_of_add, lemma_group_of_distinct, lemma_group_of_evicted,
    lemma_group_of_push, occurrences, HasItemKey,
};
use std::collections::BTreeMap;
use vstd::laws_cmp::obeys_cmp;
use vstd::prelude::*;
use vstd::std_specs::cmp::{OrdSpec, PartialEqSpec};
use vstd::std_specs::iter::IteratorSpec;

verus! {

broadcast use {vstd::seq_lib::group_filter_ensures, vstd::seq_lib::lemma_seq_contains_after_push};

/// The outcome of `diff`: items by side, paired items, and items left out.
#[derive(Debug)]
pub struct Diff<'a, Left, Right> {
    pub left: Vec<&'a Left>,
    pub both: Vec<(&'a Left, &'a Right)>,
    pub right: Vec<&'a Right>,
    /// Ignored due to duplicate keys
    pub ignored: Vec<DiffIgnored<&'a Left, &'a Right>>,
}

/// An item left out of a diff, tagged with its side.
#[derive(Debug)]
pub enum DiffIgnored<Left, Right> {
    Left(Left),
    Right(Right),
}

impl<Left: PartialEq, Right: PartialEq> PartialEq for DiffIgnored<Left, Right> {
    fn eq(&self, other: &Self) -> (same: bool) {
        match (self, other) {
            (DiffIgnored::Left(a), DiffIgnored::Left(b)) => a == b,
            (DiffIgnored::Right(a), DiffIgnored::Right(b)) => a == b,
            _ => false,
        }
    }
}

impl<Left: PartialEq, Right: PartialEq> vstd::std_specs::cmp::PartialEqSpecImpl for DiffIgnored<Left, Right> {
    open spec fn obeys_eq_spec() -> bool {
        <Left as PartialEqSpec>::obeys_eq_spec() && <Right as PartialEqSpec>::obeys_eq_spec()
    }

    open spec fn eq_spec(&self, other: &Self) -> bool {
        match (self, other) {
            (DiffIgnored::Left(a), DiffIgnored::Left(b)) => a.eq_spec(&b),
            (DiffIgnored::Right(a), DiffIgnored::Right(b)) => a.eq_spec(&b),
            _ => false,
        }
    }
}

/// The keys of paired items, read from their left halves.
pub open spec fn pair_keys<'a, L: HasItemKey<K>, R, K>(s: Seq<(&'a L, &'a R)>) -> Seq<K> {
    s.map_values(|p: (&'a L, &'a R)| p.0.item_key())
}

/// Indexes `list` by key, a later item replacing an earlier one of the same key.
///
/// Returns the index and the replaced items, in the order in which they were replaced.
fn index_last_by_key<'a, T: HasItemKey<K>, K: Ord>(list: &'a [T]) -> (r: (BTreeMap<K, &'a T>, Vec<&'a T>))
    requires
        obeys_cmp::<K>(),
    ensures
        forall|k: K| r.0@.contains_key(k) <==> occurrences(list@, k) > 0,
        forall|k: K| #[trigger] r.0@.contains_key(k) ==> *r.0@[k] == group_of(list@, k).last(),
        r.1@.map_values(|x: &T| *x) == evicted(list@),
{
    broadcast use vstd::std_specs::btree::group_btree_axioms;
    let mut index: BTreeMap<K, &'a T> = BTreeMap::new();
    let mut replaced: Vec<&'a T> = Vec::new();
    let mut i: usize = 0;
    while i < list.len()
        invariant
            obeys_cmp::<K>(),
            i <= list@.len(),
            forall|k: K| index@.contains_key(k) <==> occurrences(list@.take(i as int), k) > 0,
            forall|k: K| #[trigger] index@.contains_key(k) ==> *index@[k] == group_of(list@.take(i as int), k).last(),
            replaced@.map_values(|x: &T| *x) == evicted(list@.take(i as int)),
        decreases list@.len() - i,
    {
        let item = &list[i];
        let key = item.get_item_key();
        let ghost prefix = list@.take(i as int);
        let ghost before = replaced@;
        proof {
            assert(list@.take(i + 1) =~= prefix.push(*item));
            assert(list@.take(i + 1).drop_last() =~= prefix);
            assert forall|k: K| true implies group_of(list@.take(i + 1), k) == (if item.item_key() == k {
                group_of(prefix, k).push(*item)
            } else {
                group_of(prefix, k)
            }) by {
                lemma_group_of_push(prefix, *item, k);
            }
        }
        match index.insert(key, item) {
            Some(old_item) => {
                replaced.push(old_item);
                proof {
                    assert(replaced@.map_values(|x: &T| *x) =~= before.map_values(|x: &T| *x).push(*old_item));
                }
            },
            None => {},
        }
        i = i + 1;
    }
    assert(list@.take(list@.len() as int) =~= list@);
    (index, replaced)
}

/// The values of an index, in ascending order of their keys.
fn values_by_key<'a, T: HasItemKey<K>, K: Ord>(index: &BTreeMap<K, &'a T>) -> (r: Vec<&'a T>)
    requires
        obeys_cmp::<K>(),
        forall|k: K| #[trigger] index@.contains_key(k) ==> index@[k].item_key() == k,
    ensures
        ascending(keys_of(r@)),
        forall|k: K| keys_of(r@).contains(k) <==> index@.contains_key(k),
        forall|i: int| 0 <= i < r@.len() ==> #[trigger] r@[i] == index@[r@[i].item_key()],
{
    broadcast use vstd::std_specs::btree::group_btree_axioms;
    let mut r: Vec<&'a T> = Vec::new();
    let iter = index.iter();
    let ghost s0 = iter.remaining();
    for kv in it: iter
        invariant
            it.seq() == s0,
            forall|k: K| #[trigger] index@.contains_key(k) ==> index@[k].item_key() == k,
            s0.len() == index@.dom().len(),
            forall|i: int| 0 <= i < s0.len() ==> #[trigger] index@.contains_key(*s0[i].0) && index@[*s0[i].0] == *s0[i].1,
            keys_of(r@) == s0.take(it.index()).map_values(|kv: (&K, &&'a T)| *kv.0),
            forall|i: int| 0 <= i < r@.len() ==> #[trigger] r@[i] == index@[r@[i].item_key()],
    {
        assert(kv == s0[it.index()]);
        assert(index@.contains_key(*s0[it.index()].0));
        let ghost before = r@;
        r.push(*kv.1);
        proof {
            assert(keys_of(r@) =~= keys_of(before).push(*kv.0));
            assert(s0.take(it.index() + 1) =~= s0.take(it.index()).push(kv));
        }
    }
    proof {
        let ks = s0.map_values(|kv: (&K, &&'a T)| *kv.0);
        assert(s0.take(s0.len() as int) =~= s0);
        assert(keys_of(r@) == ks);
        assert forall|k: K| index@.contains_key(k) implies keys_of(r@).contains(k) by {
            let i = choose|i: int| 0 <= i < s0.len() && s0[i] == (&k, &index@[k]);
            assert(keys_of(r@)[i] == k);
        }
        assert forall|k: K| keys_of(r@).contains(k) implies index@.contains_key(k) by {
            let i = choose|i: int| 0 <= i < r@.len() && #[trigger] keys_of(r@)[i] == k;
            assert(index@.contains_key(*s0[i].0));
        }
    }
    r
}

/// What `diff` returns for the lists `l` and `r`.
///
/// Within each side the last item of a key stands for it. Left-only, paired and
/// right-only items come in ascending key order; the items replaced within each
/// side are logged, left side first, in the order in which they were replaced.
pub open spec fn is_diff_of<'a, K: Ord, L: HasItemKey<K>, R: HasItemKey<K>>(d: Diff<'a, L, R>, l: Seq<L>, r: Seq<R>) -> bool {
    &&& ascending(keys_of(d.left@))
    &&& forall|k: K| keys_of(d.left@).contains(k) <==> (occurrences(l, k) > 0 && occurrences(r, k) == 0)
    &&& forall|i: int| 0 <= i < d.left@.len() ==> *#[trigger] d.left@[i] == group_of(l, d.left@[i].item_key()).last()
    &&& ascending(pair_keys(d.both@))
    &&& forall|k: K| pair_keys(d.both@).contains(k) <==> (occurrences(l, k) > 0 && occurrences(r, k) > 0)
    &&& forall|i: int| 0 <= i < d.both@.len() ==> {
        &&& *(#[trigger] d.both@[i]).0 == group_of(l, d.both@[i].0.item_key()).last()
        &&& *d.both@[i].1 == group_of(r, d.both@[i].0.item_key()).last()
    }
    &&& ascending(keys_of(d.right@))
    &&& forall|k: K| keys_of(d.right@).contains(k) <==> (occurrences(l, k) == 0 && occurrences(r, k) > 0)
    &&& forall|i: int| 0 <= i < d.right@.len() ==> *#[trigger] d.right@[i] == group_of(r, d.right@[i].item_key()).last()
    &&& d.ignored@.len() == evicted(l).len() + evicted(r).len()
    &&& forall|i: int| 0 <= i < evicted(l).len() ==> (#[trigger] d.ignored@[i] matches DiffIgnored::Left(x) && *x == evicted(l)[i])
    &&& forall|i: int| 0 <= i < evicted(r).len() ==> (#[trigger] d.ignored@[evicted(l).len() + i] matches DiffIgnored::Right(x) && *x == evicted(r)[i])
}

/// Compares two lists by key.
///
/// Within each side a later item replaces an earlier one of the same key; the
/// replaced items are logged in `ignored`, left side first. The remaining items
/// are split into those whose key only the left side has, those whose key both
/// sides have (paired), and those whose key only the right side has, each in
/// ascending key order.
pub fn diff<'a, K: Ord, Left: HasItemKey<K>, Right: HasItemKey<K>>(left: &'a [Left], right: &'a [Right]) -> (r: Diff<'a, Left, Right>)
    requires
        obeys_cmp::<K>(),
    ensures
        is_diff_of(r, left@, right@),
{
    broadcast use vstd::std_specs::btree::group_btree_axioms;
    let (left_map, left_replaced) = index_last_by_key(left);
    let (mut right_map, right_replaced) = index_last_by_key(right);
    let mut ignored: Vec<DiffIgnored<&'a Left, &'a Right>> = Vec::new();
    let mut i: usize = 0;
    while i < left_replaced.len()
        invariant
            i <= left_replaced@.len(),
            ignored@.len() == i,
            forall|j: int| 0 <= j < i ==> #[trigger] ignored@[j] == DiffIgnored::<&'a Left, &'a Right>::Left(left_replaced@[j]),
        decreases left_replaced@.len() - i,
    {
        ignored.push(DiffIgnored::Left(left_replaced[i]));
        i = i + 1;
    }
    let n_left = left_replaced.len();
    let mut i: usize = 0;
    while i < right_replaced.len()
        invariant
            i <= right_replaced@.len(),
            n_left == left_replaced@.len(),
            ignored@.len() == n_left + i,
            forall|j: int| 0 <= j < n_left ==> #[trigger] ignored@[j] == DiffIgnored::<&'a Left, &'a Right>::Left(left_replaced@[j]),
            forall|j: int| 0 <= j < i ==> #[trigger] ignored@[n_left + j] == DiffIgnored::<&'a Left, &'a Right>::Right(right_replaced@[j]),
        decreases right_replaced@.len() - i,
    {
        ignored.push(DiffIgnored::Right(right_replaced[i]));
        proof {
            assert forall|j: int| 0 <= j < n_left implies #[trigger] ignored@[j] == DiffIgnored::<&'a Left, &'a Right>::Left(left_replaced@[j]) by {}
        }
        i = i + 1;
    }
    proof {
        assert forall|j: int| 0 <= j < evicted(left@).len() implies evicted(left@)[j] == *left_replaced@[j] by {
            assert(left_replaced@.map_values(|x: &'a Left| *x)[j] == *left_replaced@[j]);
        }
        assert forall|j: int| 0 <= j < evicted(right@).len() implies evicted(right@)[j] == *right_replaced@[j] by {
            assert(right_replaced@.map_values(|x: &'a Right| *x)[j] == *right_replaced@[j]);
        }
        assert forall|k: K| #[trigger] left_map@.contains_key(k) implies left_map@[k].item_key() == k by {
            left@.lemma_filter_pred(|x: Left| x.item_key() == k, group_of(left@, k).len() - 1);
        }
        assert forall|k: K| #[trigger] right_map@.contains_key(k) implies right_map@[k].item_key() == k by {
            right@.lemma_filter_pred(|x: Right| x.item_key() == k, group_of(right@, k).len() - 1);
        }
    }

    let left_values = values_by_key(&left_map);
    let ghost ks = keys_of(left_values@);
    let ghost r0 = right_map@;
    let mut only_left: Vec<&'a Left> = Vec::new();
    let mut both: Vec<(&'a Left, &'a Right)> = Vec::new();
    let mut j: usize = 0;
    while j < left_values.len()
        invariant
            obeys_cmp::<K>(),
            j <= left_values@.len(),
            ks == keys_of(left_values@),
            ascending(ks),
            forall|k: K| ks.contains(k) <==> left_map@.contains_key(k),
            forall|i: int| 0 <= i < left_values@.len() ==> #[trigger] left_values@[i] == left_map@[left_values@[i].item_key()],
            forall|k: K| #[trigger] r0.contains_key(k) ==> r0[k].item_key() == k,
            forall|k: K| #![trigger right_map@.contains_key(k)] #![trigger ks.take(j as int).contains(k)]
                right_map@.contains_key(k) <==> (r0.contains_key(k) && !ks.take(j as int).contains(k)),
            forall|k: K| #[trigger] right_map@.contains_key(k) ==> right_map@[k] == r0[k],
            ascending(keys_of(only_left@)),
            forall|k: K| #![trigger keys_of(only_left@).contains(k)] #![trigger ks.take(j as int).contains(k)]
                keys_of(only_left@).contains(k) <==> (ks.take(j as int).contains(k) && !r0.contains_key(k)),
            forall|i: int| 0 <= i < only_left@.len() ==> #[trigger] only_left@[i] == left_map@[only_left@[i].item_key()],
            ascending(pair_keys(both@)),
            forall|k: K| #![trigger pair_keys(both@).contains(k)] #![trigger ks.take(j as int).contains(k)]
                pair_keys(both@).contains(k) <==> (ks.take(j as int).contains(k) && r0.contains_key(k)),
            forall|i: int| 0 <= i < both@.len() ==> #[trigger] both@[i] == (left_map@[both@[i].0.item_key()], r0[both@[i].0.item_key()]),
        decreases left_values@.len() - j,
    {
        let item = left_values[j];
        let key = item.get_item_key();
        let ghost k = key;
        let ghost ol_before = only_left@;
        let ghost both_before = both@;
        proof {
            assert(ks[j as int] == k);
            assert(ks.take(j + 1) =~= ks.take(j as int).push(k));
            assert forall|m: int| 0 <= m < j implies (#[trigger] ks.take(j as int)[m]).cmp_spec(&k) == core::cmp::Ordering::Less by {
                assert(ks.take(j as int)[m] == ks[m]);
            }
            assert forall|kk: K| ks.take(j as int).contains(kk) implies kk.cmp_spec(&k) == core::cmp::Ordering::Less by {
                let m = choose|m: int| 0 <= m < j && #[trigger] ks.take(j as int)[m] == kk;
            }
            lemma_ascending_distinct(ks);
            assert(!ks.take(j as int).contains(k)) by {
                if ks.take(j as int).contains(k) {
                    let m = choose|m: int| 0 <= m < j && #[trigger] ks.take(j as int)[m] == k;
                    assert(ks[m] == ks[j as int]);
                }
            }
        }
        match right_map.remove(&key) {
            None => {
                only_left.push(item);
                proof {
                    assert(keys_of(only_left@) =~= keys_of(ol_before).push(k));
                    assert forall|kk: K| keys_of(ol_before).contains(kk) implies kk.cmp_spec(&k) == core::cmp::Ordering::Less by {
                        assert(ks.take(j as int).contains(kk));
                    }
                    lemma_ascending_push(keys_of(ol_before), k);
                    assert(keys_of(only_left@)[ol_before.len() as int] == k);
                    assert(!r0.contains_key(k));
                    assert forall|kk: K| keys_of(only_left@).contains(kk) <==> (ks.take(j + 1).contains(kk) && !r0.contains_key(kk)) by {
                        if kk != k {
                            assert(keys_of(only_left@).contains(kk) <==> keys_of(ol_before).contains(kk));
                        }
                    }
                    assert forall|kk: K| pair_keys(both@).contains(kk) <==> (ks.take(j + 1).contains(kk) && r0.contains_key(kk)) by {
                        if kk != k {
                            assert(ks.take(j + 1).contains(kk) <==> ks.take(j as int).contains(kk));
                        }
                    }
                    assert forall|i: int| 0 <= i < only_left@.len() implies #[trigger] only_left@[i] == left_map@[only_left@[i].item_key()] by {
                        if i < ol_before.len() {
                            assert(only_left@[i] == ol_before[i]);
                        }
                    }
                }
            },
            Some(r) => {
                both.push((item, r));
                proof {
                    assert(pair_keys(both@) =~= pair_keys(both_before).push(k));
                    assert forall|kk: K| pair_keys(both_before).contains(kk) implies kk.cmp_spec(&k) == core::cmp::Ordering::Less by {
                        assert(ks.take(j as int).contains(kk));
                    }
                    lemma_ascending_push(pair_keys(both_before), k);
                    assert(pair_keys(both@)[both_before.len() as int] == k);
                    assert(r0.contains_key(k));
                    assert forall|kk: K| pair_keys(both@).contains(kk) <==> (ks.take(j + 1).contains(kk) && r0.contains_key(kk)) by {
                        if kk != k {
                            assert(pair_keys(both@).contains(kk) <==> pair_keys(both_before).contains(kk));
                        }
                    }
                    assert forall|kk: K| keys_of(only_left@).contains(kk) <==> (ks.take(j + 1).contains(kk) && !r0.contains_key(kk)) by {
                        if kk != k {
                            assert(ks.take(j + 1).contains(kk) <==> ks.take(j as int).contains(kk));
                        }
                    }
                    assert forall|i: int| 0 <= i < both@.len() implies #[trigger] both@[i] == (left_map@[both@[i].0.item_key()], r0[both@[i].0.item_key()]) by {
                        if i < both_before.len() {
                            assert(both@[i] == both_before[i]);
                        }
                    }
                }
            },
        }
        j = j + 1;
    }
    proof {
        assert(ks.take(left_values@.len() as int) =~= ks);
        assert forall|k: K| #[trigger] right_map@.contains_key(k) implies right_map@[k].item_key() == k by {
            assert(r0.contains_key(k));
        }
    }
    let only_right = values_by_key(&right_map);
    proof {
        assert forall|k: K| #[trigger] left_map@.contains_key(k) <==> occurrences(left@, k) > 0 by {}
        assert forall|k: K| #[trigger] r0.contains_key(k) <==> occurrences(right@, k) > 0 by {}
        assert forall|i: int| 0 <= i < only_left@.len() implies *#[trigger] only_left@[i] == group_of(left@, only_left@[i].item_key()).last() by {
            let k = only_left@[i].item_key();
            assert(keys_of(only_left@)[i] == k);
            assert(keys_of(only_left@).contains(k));
            assert(ks.take(j as int).contains(k));
            assert(ks.contains(k));
            assert(left_map@.contains_key(k));
        }
        assert forall|i: int| 0 <= i < both@.len() implies {
            &&& *(#[trigger] both@[i]).0 == group_of(left@, both@[i].0.item_key()).last()
            &&& *both@[i].1 == group_of(right@, both@[i].0.item_key()).last()
        } by {
            let k = both@[i].0.item_key();
            assert(pair_keys(both@)[i] == k);
            assert(pair_keys(both@).contains(k));
            assert(ks.take(j as int).contains(k));
            assert(ks.contains(k));
            assert(left_map@.contains_key(k));
            assert(r0.contains_key(k));
        }
        assert forall|i: int| 0 <= i < only_right@.len() implies *#[trigger] only_right@[i] == group_of(right@, only_right@[i].item_key()).last() by {
            let k = only_right@[i].item_key();
            assert(keys_of(only_right@)[i] == k);
            assert(keys_of(only_right@).contains(k));
            assert(right_map@.contains_key(k));
            assert(r0.contains_key(k));
        }
    }
    Diff { left: only_left, both, right: only_right, ignored }
}

/// Swapping the two lists of a diff swaps its left-only and right-only parts
/// and turns each pair around.
pub proof fn lemma_diff_swap<'a, K: Ord, L: HasItemKey<K>, R: HasItemKey<K>>(
    l: Seq<L>,
    r: Seq<R>,
    d: Diff<'a, L, R>,
    e: Diff<'a, R, L>,
)
    requires
        obeys_cmp::<K>(),
        is_diff_of(d, l, r),
        is_diff_of(e, r, l),
    ensures
        d.left@ == e.right@,
        d.right@ == e.left@,
        d.both@.len() == e.both@.len(),
        forall|i: int| 0 <= i < d.both@.len() ==> d.both@[i].0 == (#[trigger] e.both@[i]).1 && d.both@[i].1 == e.both@[i].0,
{
    assert forall|k: K| keys_of(d.left@).contains(k) <==> keys_of(e.right@).contains(k) by {
        assert(keys_of(d.left@).contains(k) <==> (occurrences(l, k) > 0 && occurrences(r, k) == 0));
        assert(keys_of(e.right@).contains(k) <==> (occurrences(r, k) == 0 && occurrences(l, k) > 0));
    }
    lemma_ascending_unique(keys_of(d.left@), keys_of(e.right@));
    assert forall|i: int| 0 <= i < d.left@.len() implies d.left@[i] == e.right@[i] by {
        assert(keys_of(d.left@)[i] == keys_of(e.right@)[i]);
    }
    assert(d.left@ =~= e.right@);
    assert forall|k: K| keys_of(d.right@).contains(k) <==> keys_of(e.left@).contains(k) by {
        assert(keys_of(d.right@).contains(k) <==> (occurrences(l, k) == 0 && occurrences(r, k) > 0));
        assert(keys_of(e.left@).contains(k) <==> (occurrences(r, k) > 0 && occurrences(l, k) == 0));
    }
    lemma_ascending_unique(keys_of(d.right@), keys_of(e.left@));
    assert forall|i: int| 0 <= i < d.right@.len() implies d.right@[i] == e.left@[i] by {
        assert(keys_of(d.right@)[i] == keys_of(e.left@)[i]);
    }
    assert(d.right@ =~= e.left@);
    lemma_ascending_unique(pair_keys(d.both@), pair_keys(e.both@));
    assert forall|i: int| 0 <= i < d.both@.len() implies d.both@[i].0 == (#[trigger] e.both@[i]).1 && d.both@[i].1 == e.both@[i].0 by {
        assert(pair_keys(d.both@)[i] == pair_keys(e.both@)[i]);
    }
}

/// The item of a logged entry, if it comes from the left side.
pub open spec fn left_item<'a, L, R>(e: DiffIgnored<&'a L, &'a R>) -> Option<L> {
    match e {
        DiffIgnored::Left(x) => Some(*x),
        DiffIgnored::Right(_) => None,
    }
}

/// The item of a logged entry, if it comes from the right side.
pub open spec fn right_item<'a, L, R>(e: DiffIgnored<&'a L, &'a R>) -> Option<R> {
    match e {
        DiffIgnored::Left(_) => None,
        DiffIgnored::Right(x) => Some(*x),
    }
}

/// The left items of an ignored log, in order.
pub open spec fn ignored_left<'a, L, R>(log: Seq<DiffIgnored<&'a L, &'a R>>) -> Seq<L> {
    log.filter_map(|e: DiffIgnored<&'a L, &'a R>| left_item(e))
}

/// The right items of an ignored log, in order.
pub open spec fn ignored_right<'a, L, R>(log: Seq<DiffIgnored<&'a L, &'a R>>) -> Seq<R> {
    log.filter_map(|e: DiffIgnored<&'a L, &'a R>| right_item(e))
}

/// The left items that a diff keeps: the left-only ones, then the paired ones.
pub open spec fn kept_left<'a, L, R>(d: Diff<'a, L, R>) -> Seq<L> {
    d.left@.map_values(|x: &'a L| *x) + d.both@.map_values(|p: (&'a L, &'a R)| *p.0)
}

/// The right items that a diff keeps: the right-only ones, then the paired ones.
pub open spec fn kept_right<'a, L, R>(d: Diff<'a, L, R>) -> Seq<R> {
    d.right@.map_values(|x: &'a R| *x) + d.both@.map_values(|p: (&'a L, &'a R)| *p.1)
}

proof fn lemma_ignored_split<'a, L, R>(log: Seq<DiffIgnored<&'a L, &'a R>>, a: Seq<L>, b: Seq<R>)
    requires
        log.len() == a.len() + b.len(),
        forall|i: int| 0 <= i < a.len() ==> (#[trigger] log[i] matches DiffIgnored::Left(x) && *x == a[i]),
        forall|i: int| 0 <= i < b.len() ==> (#[trigger] log[a.len() + i] matches DiffIgnored::Right(x) && *x == b[i]),
    ensures
        ignored_left(log) == a,
        ignored_right(log) == b,
    decreases log.len(),
{
    if log.len() == 0 {
        assert(a =~= Seq::<L>::empty());
        assert(b =~= Seq::<R>::empty());
    } else if b.len() > 0 {
        let p = log.drop_last();
        let b2 = b.drop_last();
        assert(log[a.len() + (b.len() - 1)] == log.last());
        assert forall|i: int| 0 <= i < b2.len() implies (#[trigger] p[a.len() + i] matches DiffIgnored::Right(x) && *x == b2[i]) by {
            assert(p[a.len() + i] == log[a.len() + i]);
        }
        lemma_ignored_split(p, a, b2);
        assert(b2 + seq![b.last()] =~= b);
    } else {
        let p = log.drop_last();
        let a2 = a.drop_last();
        assert(log[a.len() - 1] == log.last());
        assert forall|i: int| 0 <= i < a2.len() implies (#[trigger] p[i] matches DiffIgnored::Left(x) && *x == a2[i]) by {
            assert(p[i] == log[i]);
        }
        lemma_ignored_split(p, a2, b);
        assert(a2 + seq![a.last()] =~= a);
    }
}

proof fn lemma_kept_left<'a, K: Ord, L: HasItemKey<K>, R: HasItemKey<K>>(l: Seq<L>, r: Seq<R>, d: Diff<'a, L, R>, k: K)
    requires
        obeys_cmp::<K>(),
        is_diff_of(d, l, r),
    ensures
        group_of(kept_left(d), k) == (if occurrences(l, k) > 0 {
            seq![group_of(l, k).last()]
        } else {
            Seq::<L>::empty()
        }),
{
    let kept = kept_left(d);
    let lk = keys_of(d.left@);
    let pk = pair_keys(d.both@);
    assert(keys_of(kept) =~= lk + pk);
    lemma_ascending_distinct(lk);
    lemma_ascending_distinct(pk);
    assert forall|i: int, j: int| 0 <= i < kept.len() && 0 <= j < kept.len() && i != j implies keys_of(kept)[i] != keys_of(kept)[j] by {
        if i < lk.len() && j >= lk.len() {
            assert(lk.contains(lk[i]) && pk.contains(pk[j - lk.len()]));
        } else if j < lk.len() && i >= lk.len() {
            assert(lk.contains(lk[j]) && pk.contains(pk[i - lk.len()]));
        }
    }
    lemma_group_of_distinct(kept, k);
    if occurrences(l, k) > 0 {
        if occurrences(r, k) == 0 {
            assert(lk.contains(k));
            let i = choose|i: int| 0 <= i < lk.len() && lk[i] == k;
            assert(kept[i] == *d.left@[i]);
        } else {
            assert(pk.contains(k));
            let i = choose|i: int| 0 <= i < pk.len() && pk[i] == k;
            assert(kept[lk.len() + i] == *d.both@[i].0);
        }
    } else {
        assert(!(lk + pk).contains(k)) by {
            if (lk + pk).contains(k) {
                let i = choose|i: int| 0 <= i < (lk + pk).len() && (lk + pk)[i] == k;
                if i < lk.len() {
                    assert(lk.contains(k));
                } else {
                    assert(pk.contains(k));
                }
            }
        }
    }
}

proof fn lemma_kept_right<'a, K: Ord, L: HasItemKey<K>, R: HasItemKey<K>>(l: Seq<L>, r: Seq<R>, d: Diff<'a, L, R>, k: K)
    requires
        obeys_cmp::<K>(),
        is_diff_of(d, l, r),
    ensures
        group_of(kept_right(d), k) == (if occurrences(r, k) > 0 {
            seq![group_of(r, k).last()]
        } else {
            Seq::<R>::empty()
        }),
{
    let kept = kept_right(d);
    let rk = keys_of(d.right@);
    let pk = pair_keys(d.both@);
    assert forall|i: int| 0 <= i < d.both@.len() implies (#[trigger] d.both@[i]).1.item_key() == pk[i] by {
        let kk = pk[i];
        assert(pk.contains(kk));
        r.lemma_filter_pred(|x: R| x.item_key() == kk, group_of(r, kk).len() - 1);
    }
    assert(keys_of(kept) =~= rk + pk);
    lemma_ascending_distinct(rk);
    lemma_ascending_distinct(pk);
    assert forall|i: int, j: int| 0 <= i < kept.len() && 0 <= j < kept.len() && i != j implies keys_of(kept)[i] != keys_of(kept)[j] by {
        if i < rk.len() && j >= rk.len() {
            assert(rk.contains(rk[i]) && pk.contains(pk[j - rk.len()]));
        } else if j < rk.len() && i >= rk.len() {
            assert(rk.contains(rk[j]) && pk.contains(pk[i - rk.len()]));
        }
    }
    lemma_group_of_distinct(kept, k);
    if occurrences(r, k) > 0 {
        if occurrences(l, k) == 0 {
            assert(rk.contains(k));
            let i = choose|i: int| 0 <= i < rk.len() && rk[i] == k;
            assert(kept[i] == *d.right@[i]);
        } else {
            assert(pk.contains(k));
            let i = choose|i: int| 0 <= i < pk.len() && pk[i] == k;
            assert(kept[rk.len() + i] == *d.both@[i].1);
        }
    } else {
        assert(!(rk + pk).contains(k)) by {
            if (rk + pk).contains(k) {
                let i = choose|i: int| 0 <= i < (rk + pk).len() && (rk + pk)[i] == k;
                if i < rk.len() {
                    assert(rk.contains(k));
                } else {
                    assert(pk.contains(k));
                }
            }
        }
    }
}

/// Every item of each list is accounted for once: per key, the ignored items
/// of a side followed by the items that the diff keeps of it (side-only, then
/// paired) are that side's items with the key, in their original order.
pub proof fn lemma_diff_partition<'a, K: Ord, L: HasItemKey<K>, R: HasItemKey<K>>(l: Seq<L>, r: Seq<R>, d: Diff<'a, L, R>, k: K)
    requires
        obeys_cmp::<K>(),
        is_diff_of(d, l, r),
    ensures
        group_of(ignored_left(d.ignored@) + kept_left(d), k) == group_of(l, k),
        group_of(ignored_right(d.ignored@) + kept_right(d), k) == group_of(r, k),
{
    lemma_ignored_split(d.ignored@, evicted(l), evicted(r));
    lemma_group_of_add(evicted(l), kept_left(d), k);
    lemma_group_of_add(evicted(r), kept_right(d), k);
    lemma_group_of_evicted(l, k);
    lemma_group_of_evicted(r, k);
    lemma_kept_left(l, r, d, k);
    lemma_kept_right(l, r, d, k);
    if occurrences(l, k) > 0 {
        assert(group_of(l, k).drop_last() + seq![group_of(l, k).last()] =~= group_of(l, k));
    } else {
        assert(group_of(l, k) =~= Seq::<L>::empty());
    }
    if occurrences(r, k) > 0 {
        assert(group_of(r, k).drop_last() + seq![group_of(r, k).last()] =~= group_of(r, k));
    } else {
        assert(group_of(r, k) =~= Seq::<R>::empty());
    }
}

/// Pairs each item of `list` with the key that `f` computes for it.
pub fn with_key<'a, T, F, K>(list: &'a [T], f: F) -> (r: Vec<WithKey<&'a T, K>>)
    where
        F: Fn(&'a T) -> K,
    requires
        forall|i: int| 0 <= i < list@.len() ==> f.requires((&list@[i],)),
    ensures
        r@.len() == list@.len(),
        forall|i: int| 0 <= i < list@.len() ==> *(#[trigger] r@[i]).item == list@[i] && f.ensures((&list@[i],), r@[i].key),
{
    let mut r: Vec<WithKey<&'a T, K>> = Vec::new();
    let mut i: usize = 0;
    while i < list.len()
        invariant
            i <= list@.len(),
            r@.len() == i,
            forall|j: int| 0 <= j < list@.len() ==> f.requires((&list@[j],)),
            forall|j: int| 0 <= j < i ==> *(#[trigger] r@[j]).item == list@[j] && f.ensures((&list@[j],), r@[j].key),
        decreases list@.len() - i,
    {
        let item = &list[i];
        let key = f(item);
        r.push(WithKey { key, item });
        i = i + 1;
    }
    r
}

/// Wrapper type for foreign types that cannot impl `HasItemKey`
#[derive(Debug)]
pub struct WithKey<T, K> {
    pub key: K,
    pub item: T,
}

impl<T, K> core::ops::Deref for WithKey<T, K> {
    type Target = T;

    fn deref(&self) -> (r: &T)
        ensures
            *r == self.item,
    {
        &self.item
    }
}

impl<T, K: Copy> HasItemKey<K> for WithKey<T, K> {
    open spec fn item_key(&self) -> K {
        self.key
    }

    fn get_item_key(&self) -> (k: K) {
        self.key
    }
}

} // verus!


