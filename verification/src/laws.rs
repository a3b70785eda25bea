//! The ordering of keys a sort targets, and laws that relate sorting to it:
//! the canonical sorted form, idempotence, and multiset preservation under
//! decoding.

use vstd::prelude::*;
use vstd::multiset::group_multiset_axioms;
use vstd::relations::{sorted_by, total_ordering};
use vstd::seq_lib::{group_to_multiset_ensures, lemma_sorted_unique};

use crate::keys::SortableKey;
use crate::network::spec_sorted_keys;
use crate::sorting::{spec_decoded, spec_keys};
use crate::types::SortOrder;

verus! {

/// The key ordering a sort under `order` establishes: plain unsigned order
/// when ascending, its reverse when descending.
pub open spec fn spec_key_le(order: SortOrder) -> spec_fn(u32, u32) -> bool {
    if order is Ascending {
        |a: u32, b: u32| a <= b
    } else {
        |a: u32, b: u32| a >= b
    }
}

/// Both key orderings are total orderings.
pub proof fn lemma_key_le_total(order: SortOrder)
    ensures
        total_ordering(spec_key_le(order)),
{
}

/// A key buffer is sorted under `order` exactly when it is sorted by the
/// order's key ordering.
pub proof fn lemma_sorted_keys_iff_sorted_by(s: Seq<u32>, order: SortOrder)
    ensures
        spec_sorted_keys(s, order) <==> sorted_by(s, spec_key_le(order)),
{
    if sorted_by(s, spec_key_le(order)) {
        assert forall|i: int, j: int| 0 <= i <= j < s.len() implies (if order is Ascending {
            #[trigger] s[i] <= #[trigger] s[j]
        } else {
            s[i] >= s[j]
        }) by {
            if i < j {
                assert(spec_key_le(order)(s[i], s[j]));
            }
        }
    }
}

/// Buffers with equal multisets keep equal multisets under any map.
pub proof fn lemma_map_multiset<A, B>(s: Seq<A>, t: Seq<A>, f: spec_fn(A) -> B)
    requires
        s.to_multiset() == t.to_multiset(),
    ensures
        s.map_values(f).to_multiset() == t.map_values(f).to_multiset(),
    decreases s.len(),
{
    broadcast use group_multiset_axioms;
    broadcast use group_to_multiset_ensures;

    if s.len() == 0 {
        assert(s.to_multiset().len() == s.len());
        assert(t.to_multiset().len() == t.len());
        assert(t.len() == 0);
        assert(s.map_values(f) =~= t.map_values(f));
    } else {
        let x = s.last();
        let s1 = s.drop_last();
        assert(s =~= s1.push(x));
        assert(s.to_multiset() =~= s1.to_multiset().insert(x));
        assert(s.contains(x));
        assert(t.to_multiset().count(x) > 0);
        assert(t.contains(x));
        let idx = choose|idx: int| 0 <= idx < t.len() && t[idx] == x;
        let t1 = t.remove(idx);
        assert(t1.to_multiset() =~= t.to_multiset().remove(x));
        assert(s1.to_multiset() =~= t1.to_multiset());
        lemma_map_multiset(s1, t1, f);
        assert(s.map_values(f) =~= s1.map_values(f).push(f(x)));
        assert(s.map_values(f).to_multiset() =~= s1.map_values(f).to_multiset().insert(f(x)));
        let tm = t.map_values(f);
        assert(tm.remove(idx) =~= t1.map_values(f));
        assert(tm.remove(idx).to_multiset() =~= tm.to_multiset().remove(tm[idx]));
        assert(tm[idx] == f(x));
        assert(0 <= idx < tm.len() && tm[idx] == f(x));
        assert(tm.contains(f(x)));
        assert(tm.to_multiset().count(f(x)) > 0);
        assert(tm.to_multiset() =~= tm.to_multiset().remove(f(x)).insert(f(x)));
        assert(s.map_values(f).to_multiset() =~= tm.to_multiset());
    }
}

/// Sorting a key buffer that is already sorted under `order` is the
/// identity: the sorted form of a buffer is unique.
pub proof fn lemma_sort_by_of_sorted(s: Seq<u32>, order: SortOrder)
    requires
        spec_sorted_keys(s, order),
    ensures
        s.sort_by(spec_key_le(order)) == s,
{
    lemma_key_le_total(order);
    lemma_sorted_keys_iff_sorted_by(s, order);
    s.lemma_sort_by_ensures(spec_key_le(order));
    lemma_sorted_unique(s.sort_by(spec_key_le(order)), s, spec_key_le(order));
}

/// Sorting is idempotent: on a buffer already sorted under `order`, the
/// value a successful sort leaves behind is the identical sequence.
pub proof fn lemma_sort_idempotent<T: SortableKey>(data: Seq<T>, order: SortOrder)
    requires
        forall|i: int, j: int|
            0 <= i <= j < data.len() ==> (if order is Ascending {
                #[trigger] data[i].le_spec(#[trigger] data[j])
            } else {
                data[j].le_spec(data[i])
            }),
    ensures
        spec_decoded::<T>(spec_keys(data).sort_by(spec_key_le(order))) == data,
{
    let keys = spec_keys(data);
    assert forall|i: int, j: int| 0 <= i <= j < keys.len() implies (if order is Ascending {
        #[trigger] keys[i] <= #[trigger] keys[j]
    } else {
        keys[i] >= keys[j]
    }) by {
        T::lemma_encode_monotone(data[i], data[j]);
        T::lemma_encode_monotone(data[j], data[i]);
    }
    assert(spec_sorted_keys(keys, order));
    lemma_sort_by_of_sorted(keys, order);
    assert forall|i: int| 0 <= i < data.len() implies spec_decoded::<T>(keys)[i] == data[i] by {
        T::lemma_round_trip(data[i]);
    }
    assert(spec_decoded::<T>(keys.sort_by(spec_key_le(order))) =~= data);
}

} // verus!
