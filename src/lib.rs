use vstd::prelude::*;
use vstd::laws_cmp::obeys_cmp;
use vstd::std_specs::cmp::OrdSpec;

pub mod diff;
pub mod dup;

verus! {

broadcast use vstd::seq_lib::group_filter_ensures;

/// A value from which a key can be read, to group, deduplicate or compare
/// values by that key.
///
/// `item_key` is the key in specifications; `get_item_key` computes it. The
/// operations of this crate ask of the key type a lawful total order
/// (`obeys_cmp`).
pub trait HasItemKey<K> {
    spec fn item_key(&self) -> K;

    fn get_item_key(&self) -> (k: K)
        ensures
            k == self.item_key(),
    ;
}

impl HasItemKey<i32> for i32 {
    open spec fn item_key(&self) -> i32 {
        *self
    }

    fn get_item_key(&self) -> (k: i32) {
        *self
    }
}

impl<'a, T: HasItemKey<K>, K> HasItemKey<K> for &'a T {
    open spec fn item_key(&self) -> K {
        (**self).item_key()
    }

    fn get_item_key(&self) -> (k: K) {
        (**self).get_item_key()
    }
}

impl<T: HasItemKey<K>, K> HasItemKey<K> for (usize, T) {
    open spec fn item_key(&self) -> K {
        self.1.item_key()
    }

    fn get_item_key(&self) -> (k: K) {
        self.1.get_item_key()
    }
}

/// Keys in strictly ascending order.
pub open spec fn ascending<K: Ord>(ks: Seq<K>) -> bool {
    forall|i: int, j: int| 0 <= i < j < ks.len() ==> #[trigger] ks[i].cmp_spec(&ks[j]) == core::cmp::Ordering::Less
}

/// Under a lawful order, ascending keys are pairwise distinct.
pub proof fn lemma_ascending_distinct<K: Ord>(ks: Seq<K>)
    requires
        obeys_cmp::<K>(),
        ascending(ks),
    ensures
        ks.no_duplicates(),
{
    reveal(vstd::laws_cmp::obeys_cmp_ord);
    reveal(vstd::laws_cmp::obeys_partial_cmp_spec_properties);
    assert forall|i: int, j: int| 0 <= i < ks.len() && 0 <= j < ks.len() && i != j implies ks[i] != ks[j] by {
        if i < j {
            assert(ks[i].cmp_spec(&ks[j]) == core::cmp::Ordering::Less);
        } else {
            assert(ks[j].cmp_spec(&ks[i]) == core::cmp::Ordering::Less);
        }
    }
}

/// Two ascending sequences that hold the same keys are equal.
pub proof fn lemma_ascending_unique<K: Ord>(a: Seq<K>, b: Seq<K>)
    requires
        obeys_cmp::<K>(),
        ascending(a),
        ascending(b),
        forall|k: K| a.contains(k) <==> b.contains(k),
    ensures
        a == b,
    decreases a.len(),
{
    reveal(vstd::laws_cmp::obeys_cmp_ord);
    reveal(vstd::laws_cmp::obeys_partial_cmp_spec_properties);
    if a.len() == 0 {
        if b.len() > 0 {
            assert(b.contains(b[0]));
        }
        assert(a =~= b);
    } else if b.len() == 0 {
        assert(a.contains(a[0]));
    } else {
        lemma_ascending_distinct(a);
        lemma_ascending_distinct(b);
        let x = a.last();
        let y = b.last();
        if x != y {
            assert(a.contains(x));
            let i = choose|i: int| 0 <= i < b.len() && b[i] == x;
            assert(x.cmp_spec(&y) == core::cmp::Ordering::Less);
            assert(b.contains(y));
            let j = choose|j: int| 0 <= j < a.len() && a[j] == y;
            assert(y.cmp_spec(&x) == core::cmp::Ordering::Less);
        }
        let a2 = a.drop_last();
        let b2 = b.drop_last();
        assert forall|k: K| a2.contains(k) implies b2.contains(k) by {
            let i = choose|i: int| 0 <= i < a2.len() && a2[i] == k;
            assert(a[i] == k && a.contains(k));
            let j = choose|j: int| 0 <= j < b.len() && b[j] == k;
            assert(j != b.len() - 1);
            assert(b2[j] == k);
        }
        assert forall|k: K| b2.contains(k) implies a2.contains(k) by {
            let j = choose|j: int| 0 <= j < b2.len() && b2[j] == k;
            assert(b[j] == k && b.contains(k));
            let i = choose|i: int| 0 <= i < a.len() && a[i] == k;
            assert(i != a.len() - 1);
            assert(a2[i] == k);
        }
        assert forall|i: int, j: int| 0 <= i < j < a2.len() implies #[trigger] a2[i].cmp_spec(&a2[j]) == core::cmp::Ordering::Less by {
            assert(a2[i] == a[i] && a2[j] == a[j]);
        }
        assert forall|i: int, j: int| 0 <= i < j < b2.len() implies #[trigger] b2[i].cmp_spec(&b2[j]) == core::cmp::Ordering::Less by {
            assert(b2[i] == b[i] && b2[j] == b[j]);
        }
        lemma_ascending_unique(a2, b2);
        assert(a =~= a2.push(x));
        assert(b =~= b2.push(y));
    }
}

/// A key above every key of an ascending sequence extends it.
pub proof fn lemma_ascending_push<K: Ord>(ks: Seq<K>, k: K)
    requires
        ascending(ks),
        forall|kk: K| ks.contains(kk) ==> kk.cmp_spec(&k) == core::cmp::Ordering::Less,
    ensures
        ascending(ks.push(k)),
{
    assert forall|i: int, j: int| 0 <= i < j < ks.push(k).len() implies #[trigger] ks.push(k)[i].cmp_spec(&ks.push(k)[j]) == core::cmp::Ordering::Less by {
        if j < ks.len() {
            assert(ks.push(k)[i] == ks[i] && ks.push(k)[j] == ks[j]);
        } else {
            assert(ks.contains(ks[i]));
        }
    }
}

/// The keys of a sequence of items, in order.
pub open spec fn keys_of<T: HasItemKey<K>, K>(s: Seq<T>) -> Seq<K> {
    s.map_values(|x: T| x.item_key())
}

/// The items of `s` whose key is `k`, in their original order.
pub open spec fn group_of<T: HasItemKey<K>, K>(s: Seq<T>, k: K) -> Seq<T> {
    s.filter(|x: T| x.item_key() == k)
}

/// How many items of `s` have the key `k`.
pub open spec fn occurrences<T: HasItemKey<K>, K>(s: Seq<T>, k: K) -> nat {
    group_of(s, k).len()
}

/// The items that a last-write-wins index by key drops while `s` is inserted in order:
/// each insertion of a key already present evicts the item last inserted under it.
pub open spec fn evicted<T: HasItemKey<K>, K>(s: Seq<T>) -> Seq<T>
    decreases s.len(),
{
    if s.len() == 0 {
        Seq::empty()
    } else {
        let p = s.drop_last();
        let k = s.last().item_key();
        if occurrences(p, k) > 0 {
            evicted(p).push(group_of(p, k).last())
        } else {
            evicted(p)
        }
    }
}

/// Appending an item extends the group of its key and leaves the others alone.
pub proof fn lemma_group_of_push<T: HasItemKey<K>, K>(s: Seq<T>, x: T, k: K)
    ensures
        group_of(s.push(x), k) == (if x.item_key() == k {
            group_of(s, k).push(x)
        } else {
            group_of(s, k)
        }),
{
    assert(s.push(x).drop_last() =~= s);
    reveal_with_fuel(Seq::filter, 1);
}

/// In a sequence whose keys are distinct, a key's group is the one item with it, if any.
pub proof fn lemma_group_of_distinct<T: HasItemKey<K>, K>(s: Seq<T>, k: K)
    requires
        keys_of(s).no_duplicates(),
    ensures
        !keys_of(s).contains(k) ==> group_of(s, k).len() == 0,
        forall|i: int| 0 <= i < s.len() && (#[trigger] s[i]).item_key() == k ==> group_of(s, k) == seq![s[i]],
    decreases s.len(),
{
    if group_of(s, k).len() > 0 {
        lemma_occurring_key_is_present(s, k);
        let j = choose|j: int| 0 <= j < s.len() && (#[trigger] s[j]).item_key() == k;
        assert(keys_of(s)[j] == k);
    }
    if s.len() > 0 {
        let p = s.drop_last();
        let x = s.last();
        assert(keys_of(p) =~= keys_of(s).drop_last());
        lemma_group_of_distinct(p, k);
        assert(s =~= p.push(x));
        lemma_group_of_push(p, x, k);
        assert forall|i: int| 0 <= i < s.len() && (#[trigger] s[i]).item_key() == k implies group_of(s, k) == seq![s[i]] by {
            if i == s.len() - 1 {
                if keys_of(p).contains(k) {
                    let j = choose|j: int| 0 <= j < keys_of(p).len() && keys_of(p)[j] == k;
                    assert(keys_of(s)[j] == keys_of(s)[s.len() - 1]);
                }
                assert(group_of(p, k).push(x) =~= seq![x]);
            } else {
                assert(p[i] == s[i]);
                assert(keys_of(s)[i] == k);
                assert(keys_of(s)[s.len() - 1] == x.item_key());
                assert(x.item_key() != k);
            }
        }
    }
}

/// Grouping by key distributes over concatenation.
pub proof fn lemma_group_of_add<T: HasItemKey<K>, K>(a: Seq<T>, b: Seq<T>, k: K)
    ensures
        group_of(a + b, k) == group_of(a, k) + group_of(b, k),
{
    Seq::filter_distributes_over_add(a, b, |x: T| x.item_key() == k);
}

/// The evicted items of a key are all of its items but the last.
pub proof fn lemma_group_of_evicted<T: HasItemKey<K>, K>(s: Seq<T>, k: K)
    ensures
        group_of(evicted(s), k) == (if occurrences(s, k) > 0 {
            group_of(s, k).drop_last()
        } else {
            Seq::<T>::empty()
        }),
    decreases s.len(),
{
    if s.len() == 0 {
        assert(group_of(evicted(s), k) =~= Seq::<T>::empty());
    } else {
        let p = s.drop_last();
        let x = s.last();
        let kx = x.item_key();
        assert(s =~= p.push(x));
        lemma_group_of_evicted(p, k);
        lemma_group_of_push(p, x, k);
        if occurrences(p, kx) > 0 {
            let y = group_of(p, kx).last();
            p.lemma_filter_pred(|z: T| z.item_key() == kx, group_of(p, kx).len() - 1);
            lemma_group_of_push(evicted(p), y, k);
            if kx == k {
                assert(group_of(p, k).drop_last().push(y) =~= group_of(p, k));
            }
        } else {
            if kx == k {
                assert(group_of(p, k).push(x).drop_last() =~= Seq::<T>::empty());
            }
        }
    }
}

/// A key with at least one occurrence is the key of some item.
pub proof fn lemma_occurring_key_is_present<T: HasItemKey<K>, K>(s: Seq<T>, k: K)
    requires
        occurrences(s, k) > 0,
    ensures
        exists|j: int| 0 <= j < s.len() && (#[trigger] s[j]).item_key() == k,
{
    let p = |y: T| y.item_key() == k;
    let x = s.filter(p)[0];
    assert(s.filter(p).contains(x));
    s.lemma_filter_contains_rev(p, x);
}

} // verus!
