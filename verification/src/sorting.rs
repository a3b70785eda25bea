//! The sort orchestrator: encode, pad, run the stage/pass schedule through a
//! chosen executor, truncate, decode.

use vstd::prelude::*;
use vstd::arithmetic::power2::{lemma_pow2_pos, pow2};

use vstd::relations::sorted_by;
use vstd::seq_lib::{lemma_multiset_commutative, lemma_sorted_unique};

use crate::correctness::lemma_network_sorted;
use crate::keys::SortableKey;
use crate::laws::{
    lemma_key_le_total, lemma_map_multiset, lemma_sorted_keys_iff_sorted_by, spec_key_le,
};
use crate::network::{
    lemma_pow2_le, next_power_of_two_u32, num_stages_u32, spec_is_pow2, spec_log2, spec_net_before,
    spec_network, spec_next_pow2, spec_padded, spec_params_valid, spec_sentinel, spec_sort_result,
    spec_sorted_keys,
};
use crate::runner::{CpuRunner, SortRunner};
use crate::types::{BitonicParams, Pass, SortError, SortOrder, Stage};

verus! {

/// Whether a typed buffer is sorted under `order`, in the natural order of
/// its type.
pub open spec fn spec_sorted_values<T: SortableKey>(s: Seq<T>, order: SortOrder) -> bool {
    forall|i: int, j: int|
        #![trigger s[i], s[j]]
        0 <= i <= j < s.len() ==> (if order is Ascending {
            s[i].le_spec(s[j])
        } else {
            s[j].le_spec(s[i])
        })
}

/// The encoded keys of a typed buffer.
pub open spec fn spec_keys<T: SortableKey>(s: Seq<T>) -> Seq<u32> {
    s.map_values(|x: T| x.encode_spec())
}

/// The typed values a key buffer decodes to.
pub open spec fn spec_decoded<T: SortableKey>(s: Seq<u32>) -> Seq<T> {
    s.map_values(|k: u32| T::decode_spec(k))
}

/// Encodes a typed buffer into a fresh key buffer, returning it together
/// with the original element count.
pub fn prepare_data<T: SortableKey>(data: &Vec<T>) -> (r: (Vec<u32>, usize))
    ensures
        r.0@ == spec_keys(data@),
        r.1 == data@.len(),
{
    let mut keys: Vec<u32> = Vec::new();
    let mut i: usize = 0;
    while i < data.len()
        invariant
            i <= data@.len(),
            keys@ == spec_keys(data@).take(i as int),
        decreases data@.len() - i,
    {
        keys.push(data[i].to_sortable_u32());
        proof {
            assert(keys@ =~= spec_keys(data@).take(i + 1));
        }
        i = i + 1;
    }
    proof {
        assert(keys@ =~= spec_keys(data@));
    }
    (keys, data.len())
}

/// Extends a key buffer to the next power-of-two length by appending
/// sentinel keys that sort past every real key under `order`. A buffer
/// whose length is already a power of two is left as it is.
pub fn pad_data(data: &mut Vec<u32>, original_size: usize, order: SortOrder)
    requires
        old(data)@.len() == original_size,
        original_size <= 0x8000_0000,
    ensures
        final(data)@ == spec_padded(old(data)@, order),
        final(data)@.len() == spec_next_pow2(original_size as nat),
        final(data)@.len() >= original_size,
        final(data)@.len() <= 0x8000_0000,
        spec_is_pow2(final(data)@.len() as nat),
{
    let padded_size = next_power_of_two_u32(original_size as u32);
    let sentinel = match order {
        SortOrder::Ascending => u32::MAX,
        SortOrder::Descending => u32::MIN,
    };
    while data.len() < padded_size as usize
        invariant
            original_size <= data@.len() <= padded_size,
            padded_size == spec_next_pow2(original_size as nat),
            spec_is_pow2(padded_size as nat),
            sentinel == spec_sentinel(order),
            data@ == spec_padded(old(data)@, order).take(data@.len() as int),
            old(data)@.len() == original_size,
            spec_padded(old(data)@, order).len() == padded_size,
        decreases padded_size - data@.len(),
    {
        data.push(sentinel);
        proof {
            assert(data@ =~= spec_padded(old(data)@, order).take(data@.len() as int));
        }
    }
    proof {
        assert(data@ =~= spec_padded(old(data)@, order));
    }
}

/// Runs every pass of the bitonic schedule for the buffer's length, in
/// schedule order, through the given executor. The first executor failure
/// aborts the remaining schedule and is returned; the buffer is then left
/// in an unspecified intermediate state.
pub fn run_bitonic_stages<R: SortRunner>(
    runner: &R,
    data: &mut Vec<u32>,
    order: SortOrder,
) -> (r: Result<(), SortError>)
    requires
        spec_is_pow2(old(data)@.len() as nat),
        old(data)@.len() <= 0xFFFF_FFFF,
    ensures
        runner.never_fails() ==> r is Ok,
        r is Ok ==> final(data)@ == spec_network(
            old(data)@,
            order is Ascending,
            spec_log2(old(data)@.len() as nat),
        ),
        r is Ok ==> final(data)@.to_multiset() == old(data)@.to_multiset(),
        r is Ok ==> final(data)@.len() == old(data)@.len(),
{
    let ghost orig = data@;
    let ghost asc = order is Ascending;
    let n = data.len() as u32;
    proof {
        lemma_pow2_pos(spec_log2(n as nat));
    }
    let num_stages = num_stages_u32(n);
    let ghost k = spec_log2(n as nat);
    let order_code = order.as_u32();
    let mut stage: u32 = 0;
    while stage < num_stages
        invariant
            orig == old(data)@,
            orig.len() == n as nat,
            spec_is_pow2(n as nat),
            n as nat == pow2(k),
            num_stages == k,
            num_stages <= 31,
            stage <= num_stages,
            order_code == order.spec_code(),
            asc == (order is Ascending),
            data@ == spec_net_before(orig, asc, stage as nat, 0),
            data@.len() == n as nat,
            data@.to_multiset() == orig.to_multiset(),
        decreases num_stages - stage,
    {
        let mut p: u32 = 0;
        while p <= stage
            invariant
                orig == old(data)@,
                orig.len() == n as nat,
                spec_is_pow2(n as nat),
                n as nat == pow2(k),
                num_stages == k,
                num_stages <= 31,
                stage < num_stages,
                p <= stage + 1,
                order_code == order.spec_code(),
                asc == (order is Ascending),
                data@ == spec_net_before(orig, asc, stage as nat, p as nat),
                data@.len() == n as nat,
                data@.to_multiset() == orig.to_multiset(),
            decreases stage + 1 - p,
        {
            let params = BitonicParams {
                num_elements: n,
                stage: Stage::new(stage),
                pass_of_stage: Pass::new(p),
                sort_order: order_code,
            };
            proof {
                lemma_pow2_le((stage + 1) as nat, k);
                assert(spec_params_valid(params, data@.len() as nat));
            }
            let res = runner.execute_kernel_pass(data, params);
            if let Err(err) = res {
                return Err(err);
            }
            proof {
                assert((order_code == 0) == asc);
                assert(data@ == spec_net_before(orig, asc, stage as nat, (p + 1) as nat));
            }
            p = p + 1;
        }
        proof {
            assert(data@ == spec_net_before(orig, asc, (stage + 1) as nat, 0));
        }
        stage = stage + 1;
    }
    Ok(())
}

/// Decodes the first `output.len()` keys of a sorted key buffer back into
/// the typed buffer, overwriting it element by element.
pub fn finalize_data<T: SortableKey>(gpu_data: &Vec<u32>, output: &mut Vec<T>)
    requires
        gpu_data@.len() >= old(output)@.len(),
    ensures
        final(output)@ == spec_decoded::<T>(gpu_data@.take(old(output)@.len() as int)),
{
    let ghost target = spec_decoded::<T>(gpu_data@.take(old(output)@.len() as int));
    let mut i: usize = 0;
    while i < output.len()
        invariant
            i <= output@.len(),
            output@.len() == old(output)@.len(),
            gpu_data@.len() >= old(output)@.len(),
            target == spec_decoded::<T>(gpu_data@.take(old(output)@.len() as int)),
            target.len() == old(output)@.len(),
            forall|t: int| 0 <= t < i ==> output@[t] == target[t],
            forall|t: int| i <= t < output@.len() ==> output@[t] == old(output)@[t],
        decreases output@.len() - i,
    {
        output[i] = T::from_sortable_u32(gpu_data[i]);
        i = i + 1;
    }
    proof {
        assert(output@ =~= target);
    }
}

/// Sorts `data` in place under `order` through the given pass executor.
///
/// A buffer of length 0 or 1 is already sorted and is returned unchanged,
/// successfully. Otherwise the values are encoded, padded, run through the
/// full bitonic schedule, truncated and decoded back. On success the buffer
/// holds the decoded sorted permutation of its original keys: it is sorted
/// under `order`, its multiset of values is unchanged, and it equals both
/// the canonical sorted form of its keys and the network's result on them.
/// The first executor failure is returned and leaves the buffer contents
/// unspecified; an executor that never fails makes the sort infallible.
pub fn sort<T: SortableKey, R: SortRunner>(
    runner: &R,
    data: &mut Vec<T>,
    order: SortOrder,
) -> (r: Result<(), SortError>)
    requires
        old(data)@.len() <= 0x8000_0000,
    ensures
        runner.never_fails() ==> r is Ok,
        old(data)@.len() <= 1 ==> r is Ok && final(data)@ == old(data)@,
        r is Ok ==> final(data)@ == spec_decoded::<T>(
            spec_keys(old(data)@).sort_by(spec_key_le(order)),
        ),
        r is Ok ==> final(data)@ == spec_decoded::<T>(
            spec_sort_result(spec_keys(old(data)@), order),
        ),
        r is Ok ==> spec_sorted_keys(spec_keys(final(data)@), order),
        r is Ok ==> spec_sorted_values(final(data)@, order),
        r is Ok ==> final(data)@.to_multiset() == old(data)@.to_multiset(),
        r is Ok ==> final(data)@.len() == old(data)@.len(),
{
    let ghost keys = spec_keys(old(data)@);
    let ghost le = spec_key_le(order);
    proof {
        lemma_key_le_total(order);
        keys.lemma_sort_by_ensures(le);
    }
    let ghost srt = keys.sort_by(le);
    if data.len() <= 1 {
        proof {
            assert(spec_sorted_keys(keys, order));
            crate::laws::lemma_sort_by_of_sorted(keys, order);
            assert forall|i: int| 0 <= i < data@.len() implies spec_decoded::<T>(keys)[i]
                == data@[i] by {
                T::lemma_round_trip(data@[i]);
            }
            assert(data@ =~= spec_decoded::<T>(keys.sort_by(le)));
            assert(data@ =~= spec_decoded::<T>(spec_sort_result(keys, order)));
            assert forall|i: int| 0 <= i < data@.len() implies data@[i].le_spec(data@[i]) by {
                T::lemma_encode_monotone(data@[i], data@[i]);
            }
        }
        return Ok(());
    }
    let (mut gpu_data, original_size) = prepare_data(data);
    pad_data(&mut gpu_data, original_size, order);
    let ghost padded = gpu_data@;
    let res = run_bitonic_stages(runner, &mut gpu_data, order);
    if let Err(err) = res {
        return Err(err);
    }
    let ghost nr = gpu_data@;
    gpu_data.truncate(original_size);
    proof {
        let kk = spec_log2(padded.len() as nat);
        assert(padded == spec_padded(keys, order));
        assert(nr == spec_network(padded, order is Ascending, kk));
        lemma_network_sorted(padded, order, kk);
        // The sorted network output with the original keys' multiset must be
        // the canonical sorted form: sorted keys followed by the sentinels.
        let fill = padded.skip(keys.len() as int);
        assert(padded =~= keys + fill);
        assert(forall|q: int| 0 <= q < fill.len() ==> fill[q] == spec_sentinel(order));
        let xx = srt + fill;
        assert(sorted_by(xx, le)) by {
            assert forall|i: int, j: int| 0 <= i < j < xx.len() implies le(xx[i], xx[j]) by {
                if j < srt.len() {
                    assert(le(srt[i], srt[j]));
                } else if i < srt.len() {
                    assert(xx[j] == spec_sentinel(order));
                } else {
                    assert(xx[i] == spec_sentinel(order) && xx[j] == spec_sentinel(order));
                }
            }
        }
        lemma_multiset_commutative(keys, fill);
        lemma_multiset_commutative(srt, fill);
        assert(xx.to_multiset() == padded.to_multiset());
        assert(sorted_by(nr, le)) by {
            lemma_sorted_keys_iff_sorted_by(nr, order);
        }
        lemma_sorted_unique(nr, xx, le);
        assert(nr.take(keys.len() as int) =~= srt);
        assert(gpu_data@ == srt);
        assert(spec_sort_result(keys, order) == srt);
    }
    finalize_data(&gpu_data, data);
    proof {
        assert(gpu_data@.take(original_size as int) =~= gpu_data@);
        assert(data@ == spec_decoded::<T>(srt));
        // The decoded buffer carries the sorted keys back out.
        assert forall|i: int| 0 <= i < data@.len() implies #[trigger] spec_keys(data@)[i]
            == srt[i] by {
            T::lemma_decode_encode(srt[i]);
        }
        assert(spec_keys(data@) =~= srt);
        assert(spec_sorted_keys(spec_keys(data@), order)) by {
            lemma_sorted_keys_iff_sorted_by(srt, order);
        }
        assert forall|i: int, j: int| 0 <= i <= j < data@.len() implies (if order is Ascending {
            data@[i].le_spec(data@[j])
        } else {
            data@[j].le_spec(data@[i])
        }) by {
            assert(spec_keys(data@)[i] == data@[i].encode_spec());
            assert(spec_keys(data@)[j] == data@[j].encode_spec());
            T::lemma_encode_monotone(data@[i], data@[j]);
            T::lemma_encode_monotone(data@[j], data@[i]);
        }
        // The multiset of values is preserved: the keys are a permutation,
        // and decoding inverts the encoding of every original value.
        assert forall|i: int| 0 <= i < old(data)@.len() implies #[trigger] spec_decoded::<T>(
            keys,
        )[i] == old(data)@[i] by {
            T::lemma_round_trip(old(data)@[i]);
        }
        assert(spec_decoded::<T>(keys) =~= old(data)@);
        lemma_map_multiset(srt, keys, |k: u32| T::decode_spec(k));
        assert(data@.to_multiset() == old(data)@.to_multiset());
    }
    Ok(())
}

/// Whether a typed buffer is sorted under `order`: adjacent keys are
/// compared in their encoded form, which mirrors the natural order.
pub fn verify_sorted<T: SortableKey>(data: &Vec<T>, order: SortOrder) -> (r: bool)
    ensures
        r == spec_sorted_keys(spec_keys(data@), order),
        r == spec_sorted_values(data@, order),
{
    let ghost keys = spec_keys(data@);
    proof {
        lemma_sorted_values_iff_keys(data@, order);
    }
    let mut i: usize = 1;
    while i < data.len()
        invariant
            1 <= i,
            data@.len() > 0 ==> i <= data@.len(),
            keys == spec_keys(data@),
            forall|t: int|
                0 < t < i && t < keys.len() ==> (if order is Ascending {
                    #[trigger] keys[t - 1] <= #[trigger] keys[t]
                } else {
                    keys[t - 1] >= keys[t]
                }),
        decreases data@.len() - i,
    {
        let prev = data[i - 1].to_sortable_u32();
        let cur = data[i].to_sortable_u32();
        let out_of_order = match order {
            SortOrder::Ascending => prev > cur,
            SortOrder::Descending => prev < cur,
        };
        if out_of_order {
            proof {
                lemma_sorted_values_iff_keys(data@, order);
                assert(prev == keys[i - 1] && cur == keys[i as int]);
                if spec_sorted_keys(keys, order) {
                    assert(if order is Ascending {
                        keys[i - 1] <= keys[i as int]
                    } else {
                        keys[i - 1] >= keys[i as int]
                    });
                }
            }
            return false;
        }
        i = i + 1;
    }
    proof {
        lemma_adjacent_sorted(keys, order);
    }
    true
}

/// A buffer is sorted under the natural order of its values exactly when
/// its encoded keys are sorted.
pub proof fn lemma_sorted_values_iff_keys<T: SortableKey>(s: Seq<T>, order: SortOrder)
    ensures
        spec_sorted_values(s, order) <==> spec_sorted_keys(spec_keys(s), order),
{
    let keys = spec_keys(s);
    if spec_sorted_values(s, order) {
        assert forall|i: int, j: int| 0 <= i <= j < keys.len() implies (if order is Ascending {
            #[trigger] keys[i] <= #[trigger] keys[j]
        } else {
            keys[i] >= keys[j]
        }) by {
            T::lemma_encode_monotone(s[i], s[j]);
            T::lemma_encode_monotone(s[j], s[i]);
        }
    }
    if spec_sorted_keys(keys, order) {
        assert forall|i: int, j: int|
            #![trigger s[i], s[j]]
            0 <= i <= j < s.len() implies (if order is Ascending {
            s[i].le_spec(s[j])
        } else {
            s[j].le_spec(s[i])
        }) by {
            assert(keys[i] == s[i].encode_spec() && keys[j] == s[j].encode_spec());
            T::lemma_encode_monotone(s[i], s[j]);
            T::lemma_encode_monotone(s[j], s[i]);
        }
    }
}

/// A key buffer whose adjacent pairs are ordered is sorted throughout.
proof fn lemma_adjacent_sorted(s: Seq<u32>, order: SortOrder)
    requires
        forall|t: int|
            0 < t < s.len() ==> (if order is Ascending {
                #[trigger] s[t - 1] <= #[trigger] s[t]
            } else {
                s[t - 1] >= s[t]
            }),
    ensures
        spec_sorted_keys(s, order),
{
    assert forall|i: int, j: int| 0 <= i <= j < s.len() implies (if order is Ascending {
        #[trigger] s[i] <= #[trigger] s[j]
    } else {
        s[i] >= s[j]
    }) by {
        lemma_chain_sorted(s, order, i, j);
    }
}

/// Chains adjacent orderings from `i` up to `j`.
proof fn lemma_chain_sorted(s: Seq<u32>, order: SortOrder, i: int, j: int)
    requires
        forall|t: int|
            0 < t < s.len() ==> (if order is Ascending {
                #[trigger] s[t - 1] <= #[trigger] s[t]
            } else {
                s[t - 1] >= s[t]
            }),
        0 <= i <= j < s.len(),
    ensures
        order is Ascending ==> s[i] <= s[j],
        !(order is Ascending) ==> s[i] >= s[j],
    decreases j - i,
{
    if i < j {
        lemma_chain_sorted(s, order, i, j - 1);
        assert(s[j - 1] == s[(j - 1) as int]);
    }
}

impl CpuRunner {
    /// Sorts `data` in place under `order` on the host. The CPU executor
    /// never fails, so neither does the sort: the buffer always ends up as
    /// the decoded sorted permutation of its original keys.
    pub fn sort<T: SortableKey>(&self, data: &mut Vec<T>, order: SortOrder) -> (r: Result<
        (),
        SortError,
    >)
        requires
            old(data)@.len() <= 0x8000_0000,
        ensures
            r is Ok,
            final(data)@ == spec_decoded::<T>(spec_keys(old(data)@).sort_by(spec_key_le(order))),
            final(data)@ == spec_decoded::<T>(spec_sort_result(spec_keys(old(data)@), order)),
            old(data)@.len() <= 1 ==> final(data)@ == old(data)@,
            spec_sorted_keys(spec_keys(final(data)@), order),
            spec_sorted_values(final(data)@, order),
            final(data)@.to_multiset() == old(data)@.to_multiset(),
            final(data)@.len() == old(data)@.len(),
    {
        sort(self, data, order)
    }
}

} // verus!
