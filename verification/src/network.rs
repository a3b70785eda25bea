//! The bitonic compare-exchange network over a buffer of encoded keys.
//!
//! Everything here is stated over mathematical sequences: one compare-exchange
//! pass, the state of the buffer at each point of the stage/pass schedule,
//! the padding policy, and sortedness of a key buffer.

use vstd::prelude::*;
use vstd::arithmetic::div_mod::{
    lemma_basic_div, lemma_div_denominator, lemma_div_plus_one, lemma_fundamental_div_mod,
    lemma_fundamental_div_mod_converse, lemma_mod_division_less_than_divisor,
};
use vstd::arithmetic::power2::{
    lemma2_to64, lemma2_to64_rest, lemma_pow2_adds, lemma_pow2_pos, lemma_pow2_strictly_increases,
    lemma_pow2_unfold, pow2,
};

use crate::types::{BitonicParams, Pass, SortOrder, Stage};

verus! {

/// The smaller of two keys.
pub open spec fn key_min(a: u32, b: u32) -> u32 {
    if a <= b {
        a
    } else {
        b
    }
}

/// The larger of two keys.
pub open spec fn key_max(a: u32, b: u32) -> u32 {
    if a <= b {
        b
    } else {
        a
    }
}

/// The exponent of a power of two: `log2(n)` rounded down.
pub open spec fn spec_log2(n: nat) -> nat
    decreases n,
{
    if n <= 1 {
        0
    } else {
        1 + spec_log2(n / 2)
    }
}

/// Whether `n` is a power of two.
pub open spec fn spec_is_pow2(n: nat) -> bool {
    n == pow2(spec_log2(n))
}

/// The smallest power of two that is at least `n` (and at least 1).
pub open spec fn spec_next_pow2(n: nat) -> nat
    decreases n,
{
    if n <= 1 {
        1
    } else {
        2 * spec_next_pow2((n + 1) / 2)
    }
}

/// The key with which a buffer is padded: the largest key for an ascending
/// sort and the smallest for a descending one, so padding sorts to the end
/// of the buffer and truncation removes exactly the padding.
pub open spec fn spec_sentinel(order: SortOrder) -> u32 {
    if order is Ascending {
        u32::MAX
    } else {
        0
    }
}

/// A buffer extended to the next power-of-two length with sentinel keys.
pub open spec fn spec_padded(s: Seq<u32>, order: SortOrder) -> Seq<u32> {
    s + Seq::new((spec_next_pow2(s.len()) - s.len()) as nat, |i: int| spec_sentinel(order))
}

/// The index a buffer position is compared against during one pass:
/// its pair distance `2^e` added when the corresponding bit of the index
/// is clear, subtracted when it is set.
pub open spec fn spec_partner(i: int, e: nat) -> int {
    if (i / pow2(e) as int) % 2 == 0 {
        i + pow2(e)
    } else {
        i - pow2(e)
    }
}

/// Whether position `i` belongs to an ascending run of the pass at `stage`
/// under the requested global order: the merge direction alternates between
/// consecutive blocks of `2^(stage+1)` positions.
pub open spec fn spec_up(i: int, stage: nat, asc: bool) -> bool {
    ((i / pow2(stage + 1) as int) % 2 == 0) == asc
}

/// The key at position `i` after one compare-exchange pass over `s`: the
/// smaller of the pair moves to its lower index in an ascending run and to
/// the higher index in a descending one.
pub open spec fn spec_pass_elem(s: Seq<u32>, stage: nat, p: nat, asc: bool, i: int) -> u32 {
    let e = (stage - p) as nat;
    let lo_side = (i / pow2(e) as int) % 2 == 0;
    let j = spec_partner(i, e);
    if 0 <= j < s.len() {
        if lo_side == spec_up(i, stage, asc) {
            key_min(s[i], s[j])
        } else {
            key_max(s[i], s[j])
        }
    } else {
        s[i]
    }
}

/// One compare-exchange pass of the bitonic network over the whole buffer.
pub open spec fn spec_pass(s: Seq<u32>, stage: nat, p: nat, asc: bool) -> Seq<u32> {
    Seq::new(s.len(), |i: int| spec_pass_elem(s, stage, p, asc, i))
}

/// The buffer as it stands when pass `p` of stage `stage` is about to run:
/// every earlier pass of the schedule applied to `s`, in schedule order.
pub open spec fn spec_net_before(s: Seq<u32>, asc: bool, stage: nat, p: nat) -> Seq<u32>
    decreases stage, p,
{
    if p == 0 {
        if stage == 0 {
            s
        } else {
            spec_pass(
                spec_net_before(s, asc, (stage - 1) as nat, (stage - 1) as nat),
                (stage - 1) as nat,
                (stage - 1) as nat,
                asc,
            )
        }
    } else {
        spec_pass(spec_net_before(s, asc, stage, (p - 1) as nat), stage, (p - 1) as nat, asc)
    }
}

/// The buffer after the complete network of `num_stages` stages runs on `s`.
pub open spec fn spec_network(s: Seq<u32>, asc: bool, num_stages: nat) -> Seq<u32> {
    spec_net_before(s, asc, num_stages, 0)
}

/// The keys a successful sort leaves behind, given the encoded input keys:
/// buffers of length 0 or 1 are untouched; anything longer is padded to the
/// next power of two, run through the full network, and truncated back.
pub open spec fn spec_sort_result(s: Seq<u32>, order: SortOrder) -> Seq<u32> {
    if s.len() <= 1 {
        s
    } else {
        spec_network(
            spec_padded(s, order),
            order is Ascending,
            spec_log2(spec_padded(s, order).len()),
        ).take(s.len() as int)
    }
}

/// Whether a key buffer is sorted under `order`.
pub open spec fn spec_sorted_keys(s: Seq<u32>, order: SortOrder) -> bool {
    forall|i: int, j: int|
        0 <= i <= j < s.len() ==> (if order is Ascending {
            #[trigger] s[i] <= #[trigger] s[j]
        } else {
            s[i] >= s[j]
        })
}

/// Whether one pass's parameters fit a buffer of length `len`: the length is
/// the element count and a power of two, the stage lies inside the network
/// for that length, the pass lies inside the stage, and the order code is
/// a single bit.
pub open spec fn spec_params_valid(params: BitonicParams, len: nat) -> bool {
    &&& len == params.num_elements as nat
    &&& spec_is_pow2(len)
    &&& pow2((params.stage.0 + 1) as nat) <= len
    &&& params.pass_of_stage.0 <= params.stage.0
    &&& params.sort_order == 0 || params.sort_order == 1
}

/// Adding `2^e` to an index whose bit `e` is clear sets that bit and leaves
/// every quotient by a higher power of two unchanged.
pub proof fn lemma_clear_bit_add(i: int, e: nat, m: nat)
    requires
        0 <= i,
        e < m,
        (i / pow2(e) as int) % 2 == 0,
    ensures
        (i + pow2(e)) / pow2(e) as int == i / pow2(e) as int + 1,
        ((i + pow2(e)) / pow2(e) as int) % 2 == 1,
        (i + pow2(e)) / pow2(m) as int == i / pow2(m) as int,
{
    let d = pow2(e) as int;
    let h = pow2((m - e) as nat) as int;
    let g = pow2((m - e - 1) as nat) as int;
    lemma_pow2_pos(e);
    lemma_pow2_pos((m - e) as nat);
    lemma_pow2_pos((m - e - 1) as nat);
    lemma_pow2_adds(e, (m - e) as nat);
    lemma_pow2_unfold((m - e) as nat);
    let b = i / d;
    lemma_div_plus_one(i, d);
    assert((i + d) / d == b + 1);
    let c = b / 2;
    lemma_fundamental_div_mod(b, 2);
    assert(b == 2 * c);
    lemma_div_denominator(i, d, h);
    lemma_div_denominator(i + d, d, h);
    assert(i / pow2(m) as int == b / h);
    assert((i + d) / pow2(m) as int == (b + 1) / h);
    lemma_div_denominator(b, 2, g);
    lemma_div_denominator(b + 1, 2, g);
    assert(b / 2 == c);
    assert((b + 1) / 2 == c) by {
        lemma_fundamental_div_mod_converse(b + 1, 2, c, 1);
    }
    assert(b / h == c / g);
    assert((b + 1) / h == c / g);
}

/// Subtracting `2^e` from an index whose bit `e` is set clears that bit and
/// leaves every quotient by a higher power of two unchanged.
pub proof fn lemma_set_bit_sub(i: int, e: nat, m: nat)
    requires
        0 <= i,
        e < m,
        (i / pow2(e) as int) % 2 == 1,
    ensures
        i - pow2(e) >= 0,
        (i - pow2(e)) / pow2(e) as int == i / pow2(e) as int - 1,
        ((i - pow2(e)) / pow2(e) as int) % 2 == 0,
        (i - pow2(e)) / pow2(m) as int == i / pow2(m) as int,
{
    let d = pow2(e) as int;
    let h = pow2((m - e) as nat) as int;
    let g = pow2((m - e - 1) as nat) as int;
    lemma_pow2_pos(e);
    lemma_pow2_pos((m - e) as nat);
    lemma_pow2_pos((m - e - 1) as nat);
    lemma_pow2_adds(e, (m - e) as nat);
    lemma_pow2_unfold((m - e) as nat);
    let b = i / d;
    assert(b >= 1) by {
        lemma_fundamental_div_mod(i, d);
        lemma_mod_division_less_than_divisor(i, d);
    }
    assert(i - d >= 0) by {
        lemma_fundamental_div_mod(i, d);
        lemma_mod_division_less_than_divisor(i, d);
        assert(d * b >= d) by (nonlinear_arith)
            requires
                d > 0,
                b >= 1,
        ;
    }
    lemma_div_plus_one(i - d, d);
    assert((i - d) / d == b - 1);
    let c = (b - 1) / 2;
    lemma_fundamental_div_mod(b - 1, 2);
    assert((b - 1) % 2 == 0) by {
        lemma_fundamental_div_mod(b, 2);
        lemma_fundamental_div_mod_converse(b - 1, 2, b / 2, 0);
    }
    assert(b - 1 == 2 * c);
    lemma_div_denominator(i, d, h);
    lemma_div_denominator(i - d, d, h);
    assert(i / pow2(m) as int == b / h);
    assert((i - d) / pow2(m) as int == (b - 1) / h);
    lemma_div_denominator(b, 2, g);
    lemma_div_denominator(b - 1, 2, g);
    assert(b / 2 == c) by {
        lemma_fundamental_div_mod_converse(b, 2, c, 1);
    }
    assert(b / h == c / g);
    assert((b - 1) / h == c / g);
}

/// The compare partner of a valid buffer position is itself a valid
/// position, on the other side of the pair, in the same direction block,
/// and partnering is an involution.
pub proof fn lemma_partner_props(i: int, e: nat, m: nat, k: nat)
    requires
        0 <= i < pow2(k),
        e < m <= k,
    ensures
        0 <= spec_partner(i, e) < pow2(k),
        spec_partner(spec_partner(i, e), e) == i,
        spec_partner(i, e) != i,
        spec_partner(i, e) / pow2(m) as int == i / pow2(m) as int,
        (i / pow2(e) as int) % 2 == 0 <==> spec_partner(i, e) == i + pow2(e),
        (i / pow2(e) as int) % 2 == 0 ==> (spec_partner(i, e) / pow2(e) as int) % 2 == 1,
        (i / pow2(e) as int) % 2 == 1 ==> (spec_partner(i, e) / pow2(e) as int) % 2 == 0,
{
    lemma_pow2_pos(e);
    lemma_pow2_pos(m);
    lemma_pow2_pos(k);
    let j = spec_partner(i, e);
    if (i / pow2(e) as int) % 2 == 0 {
        lemma_clear_bit_add(i, e, m);
        if m < k {
            lemma_clear_bit_add(i, e, k);
        }
        assert(j / pow2(k) as int == i / pow2(k) as int);
        assert(i / pow2(k) as int == 0) by {
            lemma_basic_div(i, pow2(k) as int);
        }
        assert(j < pow2(k)) by {
            lemma_fundamental_div_mod(j, pow2(k) as int);
            lemma_mod_division_less_than_divisor(j, pow2(k) as int);
        }
        lemma_set_bit_sub(j, e, m);
    } else {
        lemma_set_bit_sub(i, e, m);
        if m < k {
            lemma_set_bit_sub(i, e, k);
        }
        lemma_clear_bit_add(j, e, m);
    }
}

/// Powers of two grow monotonically with the exponent.
pub proof fn lemma_pow2_le(e1: nat, e2: nat)
    requires
        e1 <= e2,
    ensures
        pow2(e1) <= pow2(e2),
{
    if e1 < e2 {
        lemma_pow2_strictly_increases(e1, e2);
    }
}

/// `spec_log2` inverts `pow2`.
pub proof fn lemma_log2_pow2(e: nat)
    ensures
        spec_log2(pow2(e)) == e,
    decreases e,
{
    lemma2_to64();
    if e > 0 {
        lemma_pow2_unfold(e);
        lemma_pow2_pos((e - 1) as nat);
        lemma_log2_pow2((e - 1) as nat);
        assert(pow2(e) == 2 * pow2((e - 1) as nat));
        assert(pow2(e) / 2 == pow2((e - 1) as nat));
    }
}

/// A power of two at least `n` whose predecessor power is below `n` is the
/// next power of two of `n`.
pub proof fn lemma_next_pow2_exact(n: nat, e: nat)
    requires
        pow2(e) >= n,
        e == 0 || pow2((e - 1) as nat) < n,
    ensures
        spec_next_pow2(n) == pow2(e),
    decreases n,
{
    lemma2_to64();
    if n <= 1 {
        if e > 0 {
            lemma_pow2_pos((e - 1) as nat);
        }
    } else {
        let n2 = (n + 1) / 2;
        assert(e > 0);
        lemma_pow2_unfold(e);
        assert(2 * pow2((e - 1) as nat) >= n);
        assert(pow2((e - 1) as nat) >= n2);
        if e - 1 > 0 {
            lemma_pow2_unfold((e - 1) as nat);
            assert(2 * pow2((e - 2) as nat) < n);
            assert(pow2((e - 2) as nat) < n2);
        }
        lemma_next_pow2_exact(n2, (e - 1) as nat);
        assert(spec_next_pow2(n) == 2 * spec_next_pow2(n2));
    }
}

/// An exponent whose power of two fits in 32 bits is at most 31.
pub proof fn lemma_pow2_u32_bound(e: nat, n: nat)
    requires
        n == pow2(e),
        n <= 0xFFFF_FFFF,
    ensures
        e <= 31,
{
    if e > 31 {
        lemma_pow2_le(32, e);
        lemma2_to64();
        lemma2_to64_rest();
    }
}

/// `2^e`, computed by repeated doubling.
pub fn pow2_u32(e: u32) -> (r: u32)
    requires
        e < 32,
    ensures
        r == pow2(e as nat),
{
    let mut r: u32 = 1;
    let mut i: u32 = 0;
    proof {
        lemma2_to64();
    }
    while i < e
        invariant
            i <= e < 32,
            r == pow2(i as nat),
        decreases e - i,
    {
        proof {
            lemma_pow2_unfold((i + 1) as nat);
            if i + 1 < 31 {
                lemma_pow2_strictly_increases((i + 1) as nat, 31);
            }
            lemma2_to64();
        }
        r = r * 2;
        i = i + 1;
    }
    r
}

/// The smallest power of two that is at least `n`, as the padding policy
/// needs it. The bound on `n` keeps the result inside 32 bits.
pub fn next_power_of_two_u32(n: u32) -> (r: u32)
    requires
        n <= 0x8000_0000,
    ensures
        r == spec_next_pow2(n as nat),
        r >= n,
        r <= 0x8000_0000,
        spec_is_pow2(r as nat),
{
    let mut p: u32 = 1;
    let mut e: u32 = 0;
    proof {
        lemma2_to64();
    }
    while p < n
        invariant
            n <= 0x8000_0000,
            e <= 31,
            p >= 1,
            p == pow2(e as nat),
            e == 0 || pow2((e - 1) as nat) < n,
        decreases 2 * (n as int) - p as int,
    {
        proof {
            lemma_pow2_u32_bound(e as nat, p as nat);
            if e as nat + 1 > 31 {
                lemma_pow2_le(31, e as nat);
                lemma2_to64();
            }
            lemma_pow2_unfold((e + 1) as nat);
            lemma2_to64();
            lemma_pow2_le((e + 1) as nat, 31);
        }
        p = p * 2;
        e = e + 1;
    }
    proof {
        lemma_next_pow2_exact(n as nat, e as nat);
        lemma_log2_pow2(e as nat);
        lemma2_to64();
        if e >= 1 {
            if e - 1 >= 31 {
                lemma_pow2_le(31, (e - 1) as nat);
            }
            lemma_pow2_le(e as nat, 31);
        }
    }
    p
}

/// The stage/pass schedule of a network with `num_stages` stages: stages in
/// increasing order, and within each stage its passes in increasing order.
pub open spec fn spec_schedule(num_stages: nat) -> Seq<(u32, u32)>
    decreases num_stages,
{
    if num_stages == 0 {
        Seq::empty()
    } else {
        spec_schedule((num_stages - 1) as nat) + Seq::new(
            num_stages,
            |p: int| ((num_stages - 1) as u32, p as u32),
        )
    }
}

/// The (stage, pass) codes of a materialized schedule.
pub open spec fn spec_schedule_codes(r: Seq<(Stage, Pass)>) -> Seq<(u32, u32)> {
    Seq::new(r.len(), |i: int| (r[i].0.0, r[i].1.0))
}

/// Materializes the deterministic compare-exchange schedule for a
/// power-of-two element count. The sequence depends on the count alone,
/// never on the data, and every backend must follow it in this exact order:
/// each pass reads what the pass before it wrote.
pub fn schedule(num_elements: u32) -> (r: Vec<(Stage, Pass)>)
    requires
        spec_is_pow2(num_elements as nat),
        num_elements >= 1,
    ensures
        spec_schedule_codes(r@) == spec_schedule(spec_log2(num_elements as nat)),
{
    let k = num_stages_u32(num_elements);
    let mut r: Vec<(Stage, Pass)> = Vec::new();
    proof {
        assert(spec_schedule_codes(r@) =~= spec_schedule(0));
    }
    let mut stage: u32 = 0;
    while stage < k
        invariant
            stage <= k,
            k <= 31,
            spec_schedule_codes(r@) == spec_schedule(stage as nat),
        decreases k - stage,
    {
        let mut p: u32 = 0;
        while p <= stage
            invariant
                p <= stage + 1,
                stage < k <= 31,
                spec_schedule_codes(r@) == spec_schedule(stage as nat) + Seq::new(
                    p as nat,
                    |q: int| (stage, q as u32),
                ),
            decreases stage + 1 - p,
        {
            proof {
                assert(spec_schedule_codes(r@).len() == r@.len());
                assert(r@.len() == spec_schedule(stage as nat).len() + p);
            }
            r.push((Stage::new(stage), Pass::new(p)));
            proof {
                let target = spec_schedule(stage as nat) + Seq::new(
                    (p + 1) as nat,
                    |q: int| (stage, q as u32),
                );
                assert(spec_schedule_codes(r@).len() == r@.len());
                assert(target.len() == spec_schedule(stage as nat).len() + p + 1);
                assert(r@.len() == target.len());
                assert forall|i: int| 0 <= i < r@.len() implies #[trigger] spec_schedule_codes(
                    r@,
                )[i] == target[i] by {
                    if i + 1 < r@.len() {
                        assert(spec_schedule_codes(r@)[i] == (spec_schedule(stage as nat)
                            + Seq::new(p as nat, |q: int| (stage, q as u32)))[i]);
                    } else {
                        assert(r@[i].0.0 == stage && r@[i].1.0 == p);
                    }
                }
                assert(spec_schedule_codes(r@) =~= target);
            }
            p = p + 1;
        }
        proof {
            assert(spec_schedule_codes(r@) =~= spec_schedule((stage + 1) as nat));
        }
        stage = stage + 1;
    }
    r
}

/// The number of merge stages of the network for a power-of-two element
/// count: `log2(n)`.
pub fn num_stages_u32(n: u32) -> (r: u32)
    requires
        spec_is_pow2(n as nat),
        n >= 1,
    ensures
        r == spec_log2(n as nat),
        pow2(r as nat) == n as nat,
        r <= 31,
{
    let ghost full: nat = spec_log2(n as nat);
    proof {
        lemma_pow2_u32_bound(full, n as nat);
    }
    let mut p: u32 = 1;
    let mut k: u32 = 0;
    proof {
        lemma2_to64();
    }
    while p < n
        invariant
            spec_is_pow2(n as nat),
            full == spec_log2(n as nat),
            n as nat == pow2(full),
            full <= 31,
            k as nat <= full,
            p >= 1,
            p == pow2(k as nat),
        decreases n - p,
    {
        proof {
            if k as nat >= full {
                lemma_pow2_le(full, k as nat);
            }
            lemma_pow2_unfold((k + 1) as nat);
            lemma_pow2_le((k + 1) as nat, full);
        }
        p = p * 2;
        k = k + 1;
    }
    proof {
        if (k as nat) < full {
            lemma_pow2_strictly_increases(k as nat, full);
        }
        lemma_log2_pow2(k as nat);
    }
    k
}

} // verus!
