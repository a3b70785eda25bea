//! Pass executors: the pluggable capability that performs one
//! compare-exchange pass, and the reference CPU implementation.

use vstd::prelude::*;
use vstd::arithmetic::power2::pow2;
use vstd::arithmetic::power2::lemma_pow2_pos;
use vstd::arithmetic::power2::lemma_pow2_strictly_increases;
use vstd::multiset::group_multiset_axioms;
use vstd::seq_lib::group_to_multiset_ensures;
use vstd::seq_lib::to_multiset_update;

use crate::network::{
    key_max, key_min, lemma_partner_props, lemma_pow2_u32_bound, lemma_set_bit_sub, pow2_u32,
    spec_log2, spec_params_valid, spec_partner, spec_pass, spec_pass_elem, spec_up,
};
use crate::types::{BitonicParams, SortError};

verus! {

/// The lower index of the compare-exchange pair that contains `t` when the
/// pair distance is `2^e`.
pub open spec fn spec_pair_lo(t: int, e: nat) -> int {
    if (t / pow2(e) as int) % 2 == 0 {
        t
    } else {
        t - pow2(e)
    }
}

/// A sorting backend: it reports what it runs on and performs one
/// compare-exchange pass over a borrowed key buffer.
///
/// Every implementation must realize the identical pass semantics
/// `spec_pass`; only the substrate that evaluates the comparisons varies.
/// An executor may fail when its backing compute resource cannot process
/// the pass; one whose `never_fails` holds returns `Ok` on every pass.
pub trait SortRunner: Sized {
    /// Whether this executor's passes are guaranteed to succeed.
    spec fn never_fails(&self) -> bool;

    /// Backend information for reporting: (host, backend, adapter, driver).
    fn backend_info(&self) -> (r: (
        &'static str,
        Option<&'static str>,
        Option<String>,
        Option<String>,
    ));

    /// Execute a single compare-exchange pass over `data`.
    ///
    /// On success the buffer holds exactly the result of the pass the
    /// parameters describe, a permutation of what it held before; after a
    /// failure the buffer's contents are unspecified.
    fn execute_kernel_pass(&self, data: &mut Vec<u32>, params: BitonicParams) -> (r: Result<
        (),
        SortError,
    >)
        requires
            spec_params_valid(params, old(data)@.len() as nat),
        ensures
            self.never_fails() ==> r is Ok,
            r is Ok ==> final(data)@ == spec_pass(
                old(data)@,
                params.stage.0 as nat,
                params.pass_of_stage.0 as nat,
                params.sort_order == 0,
            ),
            r is Ok ==> final(data)@.to_multiset() == old(data)@.to_multiset(),
            r is Ok ==> final(data)@.len() == old(data)@.len(),
    ;
}

/// Exchanging the keys at two distinct positions preserves the buffer's
/// multiset of keys.
proof fn lemma_swap_multiset(s: Seq<u32>, i: int, j: int)
    requires
        0 <= i < s.len(),
        0 <= j < s.len(),
        i != j,
    ensures
        s.update(i, s[j]).update(j, s[i]).to_multiset() == s.to_multiset(),
{
    broadcast use to_multiset_update;
    broadcast use group_multiset_axioms;
    broadcast use group_to_multiset_ensures;

    let m = s.to_multiset();
    assert(s.contains(s[i]));
    assert(s.contains(s[j]));
    assert(m.count(s[i]) > 0);
    assert(m.count(s[j]) > 0);
    let s1 = s.update(i, s[j]);
    assert(s1[j] == s[j]);
    assert(s1.to_multiset() == m.insert(s[j]).remove(s[i]));
    assert(s1.update(j, s[i]).to_multiset() == s1.to_multiset().insert(s[i]).remove(s[j]));
    assert(m.insert(s[j]).remove(s[i]).insert(s[i]).remove(s[j]) =~= m);
}

/// One compare-exchange pass over `data`, evaluated pair by pair on the
/// host. Every pair is visited once, through its lower index, so the loop
/// realizes exactly the independent comparisons of `spec_pass`.
pub fn cpu_compare_exchange_pass(data: &mut Vec<u32>, params: BitonicParams)
    requires
        spec_params_valid(params, old(data)@.len() as nat),
    ensures
        final(data)@ == spec_pass(
            old(data)@,
            params.stage.0 as nat,
            params.pass_of_stage.0 as nat,
            params.sort_order == 0,
        ),
        final(data)@.to_multiset() == old(data)@.to_multiset(),
{
    let ghost orig = data@;
    let stage = params.stage.0;
    let pnum = params.pass_of_stage.0;
    let asc = params.sort_order == 0;
    let n = params.num_elements;
    let ghost k = spec_log2(n as nat);
    proof {
        lemma_pow2_u32_bound((stage + 1) as nat, pow2((stage + 1) as nat));
    }
    let e = stage - pnum;
    proof {
        lemma_pow2_pos(e as nat);
        lemma_pow2_pos((stage + 1) as nat);
        if (stage + 1) as nat > k {
            lemma_pow2_strictly_increases(k, (stage + 1) as nat);
        }
    }
    let d = pow2_u32(e);
    let blk = pow2_u32(stage + 1);
    let mut i: u32 = 0;
    while i < n
        invariant
            data@.len() == n as nat,
            orig == old(data)@,
            orig.len() == n as nat,
            spec_params_valid(params, n as nat),
            stage == params.stage.0,
            pnum == params.pass_of_stage.0,
            asc == (params.sort_order == 0),
            n == params.num_elements,
            k == spec_log2(n as nat),
            n as nat == pow2(k),
            e == stage - pnum,
            d == pow2(e as nat),
            d >= 1,
            stage as nat + 1 <= k,
            blk == pow2((stage + 1) as nat),
            blk >= 1,
            i <= n,
            data@.to_multiset() == orig.to_multiset(),
            forall|t: int|
                0 <= t < n ==> data@[t] == (if spec_pair_lo(t, e as nat) < i {
                    spec_pass_elem(orig, stage as nat, pnum as nat, asc, t)
                } else {
                    orig[t]
                }),
        decreases n - i,
    {
        let lo_side = (i / d) % 2 == 0;
        if lo_side {
            proof {
                lemma_partner_props(i as int, e as nat, (stage + 1) as nat, k);
                lemma_partner_props(i as int, e as nat, k, k);
            }
            let j = i + d;
            let a = data[i as usize];
            let b = data[j as usize];
            let up = ((i / blk) % 2 == 0) == asc;
            let ghost before = data@;
            if up == (a <= b) {
                data[i as usize] = a;
                data[j as usize] = b;
            } else {
                data[i as usize] = b;
                data[j as usize] = a;
            }
            proof {
                assert(spec_partner(i as int, e as nat) == j as int);
                assert(spec_partner(j as int, e as nat) == i as int);
                assert(spec_up(i as int, stage as nat, asc) == up);
                assert(spec_up(j as int, stage as nat, asc) == up) by {
                    assert(j as int / pow2((stage + 1) as nat) as int == i as int / pow2(
                        (stage + 1) as nat,
                    ) as int);
                }
                assert(spec_pass_elem(orig, stage as nat, pnum as nat, asc, i as int) == (if up {
                    key_min(a, b)
                } else {
                    key_max(a, b)
                }));
                assert(spec_pass_elem(orig, stage as nat, pnum as nat, asc, j as int) == (if up {
                    key_max(a, b)
                } else {
                    key_min(a, b)
                }));
                if up == (a <= b) {
                    assert(data@ =~= before);
                } else {
                    assert(data@ == before.update(i as int, b).update(j as int, a));
                    lemma_swap_multiset(before, i as int, j as int);
                }
                assert forall|t: int|
                    0 <= t < n && !(spec_pair_lo(t, e as nat) < i) && spec_pair_lo(t, e as nat) < i
                        + 1 implies t == i as int || t == j as int by {
                    if (t / pow2(e as nat) as int) % 2 != 0 {
                        lemma_set_bit_sub(t, e as nat, (e + 1) as nat);
                    }
                }
            }
            i = i + 1;
        } else {
            proof {
                assert forall|t: int|
                    0 <= t < n && !(spec_pair_lo(t, e as nat) < i) && spec_pair_lo(t, e as nat) < i
                        + 1 implies false by {
                    if (t / pow2(e as nat) as int) % 2 == 0 {
                    } else {
                        lemma_set_bit_sub(t, e as nat, (e + 1) as nat);
                    }
                }
            }
            i = i + 1;
        }
    }
    proof {
        assert forall|t: int| 0 <= t < n implies spec_pair_lo(t, e as nat) < n by {
            if (t / pow2(e as nat) as int) % 2 != 0 {
                lemma_set_bit_sub(t, e as nat, (e + 1) as nat);
            }
        }
        assert(data@ =~= spec_pass(orig, stage as nat, pnum as nat, asc));
    }
}

/// The reference executor: it evaluates every pass on the host processor
/// and never fails.
pub struct CpuRunner;

impl SortRunner for CpuRunner {
    open spec fn never_fails(&self) -> bool {
        true
    }

    fn backend_info(&self) -> (r: (
        &'static str,
        Option<&'static str>,
        Option<String>,
        Option<String>,
    )) {
        ("native", Some("CPU"), None, None)
    }

    fn execute_kernel_pass(&self, data: &mut Vec<u32>, params: BitonicParams) -> (r: Result<
        (),
        SortError,
    >) {
        cpu_compare_exchange_pass(data, params);
        Ok(())
    }
}

} // verus!
