//! Correctness of the bitonic network: the network output is the sorted
//! permutation of its input.
//!
//! The proof follows the zero-one principle. A buffer of zeros and ones is
//! tracked through the schedule with a merge invariant: within each merge
//! block the sub-blocks carry no four-index alternation (the zero-one form
//! of cyclic bitonicity) and stand in block order. Compare-exchange passes
//! commute with monotone maps, so a violation of sortedness on arbitrary
//! keys would project to one on a zero-one buffer.

use vstd::prelude::*;
use vstd::arithmetic::div_mod::{
    lemma_div_denominator, lemma_div_is_ordered, lemma_fundamental_div_mod,
    lemma_mod_division_less_than_divisor,
};
use vstd::arithmetic::div_mod::lemma_basic_div;
use vstd::arithmetic::power2::{lemma2_to64, lemma_pow2_adds, lemma_pow2_pos, lemma_pow2_unfold, pow2};

use crate::network::{
    key_max, key_min, lemma_partner_props, lemma_set_bit_sub, spec_net_before, spec_network,
    spec_partner, spec_pass, spec_pass_elem, spec_sorted_keys, spec_up,
};
use crate::types::SortOrder;

verus! {

/// Every key of the buffer is zero or one.
pub open spec fn all_binary(s: Seq<u32>) -> bool {
    forall|t: int| 0 <= t < s.len() ==> s[t] == 0 || s[t] == 1
}

/// No four positions of one aligned `w`-block alternate in either
/// orientation: for zero-one buffers this says each block is a cyclic
/// rotation of a sorted sequence, the form bitonic merging preserves.
pub open spec fn blocks_smooth(s: Seq<u32>, w: int) -> bool {
    forall|a: int, b: int, c: int, e: int|
        #![trigger s[a], s[b], s[c], s[e]]
        0 <= a < b && b < c && c < e && e < s.len() && a / w == e / w ==> !(s[a] < s[b] && s[b]
            > s[c] && s[c] < s[e]) && !(s[a] > s[b] && s[b] < s[c] && s[c] > s[e])
}

/// The merge direction of block `q`: even blocks follow the requested
/// order, odd blocks oppose it.
pub open spec fn spec_block_up(q: int, asc: bool) -> bool {
    (q % 2 == 0) == asc
}

/// Within each aligned `bs`-block, the keys of distinct `w`-sub-blocks
/// stand in the block's direction: earlier sub-blocks hold smaller keys in
/// an up block and larger keys in a down block.
pub open spec fn blocks_ordered(s: Seq<u32>, w: int, bs: int, asc: bool) -> bool {
    forall|x: int, y: int|
        #![trigger s[x], s[y]]
        0 <= x < y && y < s.len() && x / bs == y / bs && x / w < y / w ==> (if spec_block_up(
            x / bs,
            asc,
        ) {
            s[x] <= s[y]
        } else {
            s[x] >= s[y]
        })
}

/// The merge invariant of one stage, just before pass `p` runs: the buffer
/// is zero-one, its current sub-blocks are free of alternations, and they
/// stand in block order.
pub open spec fn spec_minv(s: Seq<u32>, stage: nat, p: nat, asc: bool) -> bool {
    &&& all_binary(s)
    &&& blocks_smooth(s, pow2((stage + 1 - p) as nat) as int)
    &&& blocks_ordered(s, pow2((stage + 1 - p) as nat) as int, pow2((stage + 1) as nat) as int, asc)
}

/// Positions with equal quotients by `w` lie within `w` of one another.
proof fn lemma_same_quot_close(x: int, y: int, w: int)
    requires
        0 <= x,
        0 <= y,
        1 <= w,
        x / w == y / w,
    ensures
        x < y + w,
        y < x + w,
{
    lemma_fundamental_div_mod(x, w);
    lemma_fundamental_div_mod(y, w);
    lemma_mod_division_less_than_divisor(x, w);
    lemma_mod_division_less_than_divisor(y, w);
}

/// A position in an earlier `w`-quotient stands strictly before one in a
/// later quotient.
proof fn lemma_quot_ordered(x: int, y: int, w: int)
    requires
        0 <= x,
        0 <= y,
        1 <= w,
        x / w < y / w,
    ensures
        x < y,
{
    if x >= y {
        lemma_div_is_ordered(y, x, w);
    }
}

/// The two halves of one pair block stand in order: the smaller key of one
/// pair never exceeds the larger key of another pair of the same block.
/// This is the ordering half of the half-cleaner lemma and needs no
/// zero-one restriction.
proof fn lemma_pairs_ordered(s: Seq<u32>, d: int, u: int, v: int)
    requires
        1 <= d,
        0 <= u,
        0 <= v,
        u + d < s.len(),
        v + d < s.len(),
        u < v + d,
        v < u + d,
        u / (2 * d) == v / (2 * d),
        (u + d) / (2 * d) == u / (2 * d),
        (v + d) / (2 * d) == v / (2 * d),
        blocks_smooth(s, 2 * d),
    ensures
        key_min(s[u], s[u + d]) <= key_max(s[v], s[v + d]),
{
    if u == v {
    } else if u < v {
        assert(!(s[u] > s[v] && s[v] < s[u + d] && s[u + d] > s[v + d]));
    } else {
        assert(!(s[v] < s[u] && s[u] > s[v + d] && s[v + d] < s[u + d]));
    }
}

/// Taking the smaller or the larger key of each pair of one pair block
/// keeps a zero-one buffer free of alternations: any alternation among four
/// pair results exhibits one among the original keys.
/// This is the bitonicity half of the half-cleaner lemma.
proof fn lemma_half_smooth(s: Seq<u32>, d: int, u1: int, u2: int, u3: int, u4: int, use_min: bool)
    requires
        1 <= d,
        0 <= u1 < u2 < u3 < u4,
        u4 + d < s.len(),
        u4 < u1 + d,
        u1 / (2 * d) == (u4 + d) / (2 * d),
        all_binary(s),
        blocks_smooth(s, 2 * d),
    ensures
        use_min ==> !(key_min(s[u1], s[u1 + d]) < key_min(s[u2], s[u2 + d]) && key_min(
            s[u2],
            s[u2 + d],
        ) > key_min(s[u3], s[u3 + d]) && key_min(s[u3], s[u3 + d]) < key_min(s[u4], s[u4 + d])),
        use_min ==> !(key_min(s[u1], s[u1 + d]) > key_min(s[u2], s[u2 + d]) && key_min(
            s[u2],
            s[u2 + d],
        ) < key_min(s[u3], s[u3 + d]) && key_min(s[u3], s[u3 + d]) > key_min(s[u4], s[u4 + d])),
        !use_min ==> !(key_max(s[u1], s[u1 + d]) < key_max(s[u2], s[u2 + d]) && key_max(
            s[u2],
            s[u2 + d],
        ) > key_max(s[u3], s[u3 + d]) && key_max(s[u3], s[u3 + d]) < key_max(s[u4], s[u4 + d])),
        !use_min ==> !(key_max(s[u1], s[u1 + d]) > key_max(s[u2], s[u2 + d]) && key_max(
            s[u2],
            s[u2 + d],
        ) < key_max(s[u3], s[u3 + d]) && key_max(s[u3], s[u3 + d]) > key_max(s[u4], s[u4 + d])),
{
    lemma_div_is_ordered(u1, u2, 2 * d);
    lemma_div_is_ordered(u2, u4 + d, 2 * d);
    lemma_div_is_ordered(u1, u3, 2 * d);
    lemma_div_is_ordered(u3, u4 + d, 2 * d);
    lemma_div_is_ordered(u1, u4, 2 * d);
    lemma_div_is_ordered(u4, u4 + d, 2 * d);
    lemma_div_is_ordered(u1, u1 + d, 2 * d);
    lemma_div_is_ordered(u1 + d, u4 + d, 2 * d);
    lemma_div_is_ordered(u1, u2 + d, 2 * d);
    lemma_div_is_ordered(u2 + d, u4 + d, 2 * d);
    lemma_div_is_ordered(u1, u3 + d, 2 * d);
    lemma_div_is_ordered(u3 + d, u4 + d, 2 * d);
    if use_min {
        let m1 = key_min(s[u1], s[u1 + d]);
        let m2 = key_min(s[u2], s[u2 + d]);
        let m3 = key_min(s[u3], s[u3 + d]);
        let m4 = key_min(s[u4], s[u4 + d]);
        if m1 < m2 && m2 > m3 && m3 < m4 {
            assert(s[u2] == 1 && s[u2 + d] == 1);
            assert(s[u4] == 1 && s[u4 + d] == 1);
            if s[u3] == 0 {
                if s[u1] == 0 {
                    assert(!(s[u1] < s[u2] && s[u2] > s[u3] && s[u3] < s[u4]));
                } else {
                    assert(s[u1 + d] == 0);
                    assert(!(s[u3] < s[u4] && s[u4] > s[u1 + d] && s[u1 + d] < s[u2 + d]));
                }
            } else {
                assert(s[u3 + d] == 0);
                if s[u1] == 0 {
                    assert(!(s[u1] < s[u2] && s[u2] > s[u3 + d] && s[u3 + d] < s[u4 + d]));
                } else {
                    assert(s[u1 + d] == 0);
                    assert(!(s[u1 + d] < s[u2 + d] && s[u2 + d] > s[u3 + d] && s[u3 + d] < s[u4
                        + d]));
                }
            }
        }
        if m1 > m2 && m2 < m3 && m3 > m4 {
            assert(s[u1] == 1 && s[u1 + d] == 1);
            assert(s[u3] == 1 && s[u3 + d] == 1);
            if s[u2] == 0 {
                if s[u4] == 0 {
                    assert(!(s[u1] > s[u2] && s[u2] < s[u3] && s[u3] > s[u4]));
                } else {
                    assert(s[u4 + d] == 0);
                    assert(!(s[u1] > s[u2] && s[u2] < s[u3] && s[u3] > s[u4 + d]));
                }
            } else {
                assert(s[u2 + d] == 0);
                if s[u4] == 0 {
                    assert(!(s[u1] > s[u4] && s[u4] < s[u1 + d] && s[u1 + d] > s[u2 + d]));
                } else {
                    assert(s[u4 + d] == 0);
                    assert(!(s[u1] > s[u2 + d] && s[u2 + d] < s[u3 + d] && s[u3 + d] > s[u4 + d]));
                }
            }
        }
    } else {
        let m1 = key_max(s[u1], s[u1 + d]);
        let m2 = key_max(s[u2], s[u2 + d]);
        let m3 = key_max(s[u3], s[u3 + d]);
        let m4 = key_max(s[u4], s[u4 + d]);
        if m1 < m2 && m2 > m3 && m3 < m4 {
            assert(s[u1] == 0 && s[u1 + d] == 0);
            assert(s[u3] == 0 && s[u3 + d] == 0);
            if s[u2] == 1 {
                if s[u4] == 1 {
                    assert(!(s[u1] < s[u2] && s[u2] > s[u3] && s[u3] < s[u4]));
                } else {
                    assert(s[u4 + d] == 1);
                    assert(!(s[u1] < s[u2] && s[u2] > s[u3] && s[u3] < s[u4 + d]));
                }
            } else {
                assert(s[u2 + d] == 1);
                if s[u4] == 1 {
                    assert(!(s[u1] < s[u4] && s[u4] > s[u1 + d] && s[u1 + d] < s[u2 + d]));
                } else {
                    assert(s[u4 + d] == 1);
                    assert(!(s[u1] < s[u2 + d] && s[u2 + d] > s[u3 + d] && s[u3 + d] < s[u4 + d]));
                }
            }
        }
        if m1 > m2 && m2 < m3 && m3 > m4 {
            assert(s[u2] == 0 && s[u2 + d] == 0);
            assert(s[u4] == 0 && s[u4 + d] == 0);
            if s[u3] == 1 {
                if s[u1] == 1 {
                    assert(!(s[u1] > s[u2] && s[u2] < s[u3] && s[u3] > s[u4]));
                } else {
                    assert(s[u1 + d] == 1);
                    assert(!(s[u3] > s[u4] && s[u4] < s[u1 + d] && s[u1 + d] > s[u2 + d]));
                }
            } else {
                assert(s[u3 + d] == 1);
                if s[u1] == 1 {
                    assert(!(s[u1] > s[u2] && s[u2] < s[u3 + d] && s[u3 + d] > s[u4 + d]));
                } else {
                    assert(s[u1 + d] == 1);
                    assert(!(s[u1 + d] > s[u2 + d] && s[u2 + d] < s[u3 + d] && s[u3 + d] > s[u4
                        + d]));
                }
            }
        }
    }
}

/// One pass of a stage preserves the merge invariant, halving the
/// sub-block width: each new sub-block is alternation-free and the new
/// sub-blocks stand in block order.
#[verifier::rlimit(60)]
proof fn lemma_merge_step(s: Seq<u32>, k: nat, stage: nat, p: nat, asc: bool)
    requires
        s.len() == pow2(k),
        stage < k,
        p <= stage,
        spec_minv(s, stage, p, asc),
    ensures
        spec_minv(spec_pass(s, stage, p, asc), stage, (p + 1) as nat, asc),
{
    let e = (stage - p) as nat;
    let d = pow2(e) as int;
    let bs = pow2((stage + 1) as nat) as int;
    let n = s.len() as int;
    let bb = spec_pass(s, stage, p, asc);
    lemma_pow2_pos(e);
    lemma_pow2_pos((stage + 1) as nat);
    lemma_pow2_pos(k);
    lemma_pow2_unfold((e + 1) as nat);
    assert(pow2((stage + 1 - p) as nat) == 2 * d);
    assert(pow2((stage + 1 - (p + 1)) as nat) == d);
    lemma_pow2_adds(e, (stage + 1 - e) as nat);
    let hb = pow2((stage + 1 - e) as nat) as int;
    lemma_pow2_pos((stage + 1 - e) as nat);
    assert(bs == d * hb);
    lemma_pow2_unfold((stage + 1 - e) as nat);
    let hb2 = pow2((stage - e) as nat) as int;
    lemma_pow2_pos((stage - e) as nat);
    assert(hb == 2 * hb2);
    assert(bs == (2 * d) * hb2) by (nonlinear_arith)
        requires
            bs == d * hb,
            hb == 2 * hb2,
    ;
    // Every position has its partner in range, in the same pair block and
    // the same direction block.
    assert forall|t: int| 0 <= t < n implies {
        &&& 0 <= spec_partner(t, e) < n
        &&& #[trigger] bb[t] == spec_pass_elem(s, stage, p, asc, t)
        &&& (bb[t] == s[t] || bb[t] == s[spec_partner(t, e)])
    } by {
        lemma_partner_props(t, e, (e + 1) as nat, k);
    }
    assert(all_binary(bb));
    // Alternation-freedom of the new, halved sub-blocks.
    assert forall|a: int, b: int, c: int, f: int|
        0 <= a < b && b < c && c < f && f < n && a / d == f / d implies !(#[trigger] bb[a]
            < #[trigger] bb[b] && bb[b] > #[trigger] bb[c] && bb[c] < #[trigger] bb[f]) && !(bb[a]
            > bb[b] && bb[b] < bb[c] && bb[c] > bb[f]) by {
        lemma_div_is_ordered(a, b, d);
        lemma_div_is_ordered(b, f, d);
        lemma_div_is_ordered(a, c, d);
        lemma_div_is_ordered(c, f, d);
        lemma_partner_props(a, e, (e + 1) as nat, k);
        lemma_partner_props(b, e, (e + 1) as nat, k);
        lemma_partner_props(c, e, (e + 1) as nat, k);
        lemma_partner_props(f, e, (e + 1) as nat, k);
        lemma_partner_props(a, e, (stage + 1) as nat, k);
        lemma_partner_props(b, e, (stage + 1) as nat, k);
        lemma_partner_props(c, e, (stage + 1) as nat, k);
        lemma_partner_props(f, e, (stage + 1) as nat, k);
        lemma_same_quot_close(a, f, d);
        lemma_div_denominator(a, d, 2);
        lemma_div_denominator(b, d, 2);
        lemma_div_denominator(c, d, 2);
        lemma_div_denominator(f, d, 2);
        lemma_div_denominator(a, d, hb);
        lemma_div_denominator(b, d, hb);
        lemma_div_denominator(c, d, hb);
        lemma_div_denominator(f, d, hb);
        assert(a / bs == b / bs && a / bs == c / bs && a / bs == f / bs);
        let up = spec_up(a, stage, asc);
        assert(spec_up(b, stage, asc) == up && spec_up(c, stage, asc) == up && spec_up(
            f,
            stage,
            asc,
        ) == up);
        if (a / d) % 2 == 0 {
            let use_min = up;
            assert(bb[a] == (if use_min {
                key_min(s[a], s[a + d])
            } else {
                key_max(s[a], s[a + d])
            }));
            assert(f + d < n) by {
                lemma_partner_props(f, e, k, k);
            }
            assert(a / (2 * d) == (f + d) / (2 * d));
            lemma_half_smooth(s, d, a, b, c, f, use_min);
        } else {
            let use_min = !up;
            let a2 = a - d;
            let b2 = b - d;
            let c2 = c - d;
            let f2 = f - d;
            assert(bb[a] == (if use_min {
                key_min(s[a2], s[a2 + d])
            } else {
                key_max(s[a2], s[a2 + d])
            }));
            assert(a2 / (2 * d) == (f2 + d) / (2 * d));
            lemma_half_smooth(s, d, a2, b2, c2, f2, use_min);
        }
    }
    assert(blocks_smooth(bb, d));
    // Block order among the new sub-blocks.
    assert forall|x: int, y: int|
        0 <= x < y && y < n && x / bs == y / bs && x / d < y / d implies (if spec_block_up(
        x / bs,
        asc,
    ) {
        #[trigger] bb[x] <= #[trigger] bb[y]
    } else {
        bb[x] >= bb[y]
    }) by {
        lemma_partner_props(x, e, (e + 1) as nat, k);
        lemma_partner_props(y, e, (e + 1) as nat, k);
        lemma_partner_props(x, e, (stage + 1) as nat, k);
        lemma_partner_props(y, e, (stage + 1) as nat, k);
        lemma_div_denominator(x, d, 2);
        lemma_div_denominator(y, d, 2);
        lemma_div_denominator(x, 2 * d, hb2);
        lemma_div_denominator(y, 2 * d, hb2);
        let up = spec_up(x, stage, asc);
        assert(spec_up(y, stage, asc) == up) by {
            lemma_div_denominator(x, d, hb);
            lemma_div_denominator(y, d, hb);
        }
        assert(up == spec_block_up(x / bs, asc));
        if x / (2 * d) == y / (2 * d) {
            // Two halves of one pair block: the half-cleaner order.
            assert((x / d) % 2 == 0 && (y / d) % 2 == 1);
            let v = y - d;
            lemma_set_bit_sub(y, e, (e + 1) as nat);
            assert(v / d == y / d - 1 && (v / d) % 2 == 0);
            lemma_same_quot_close(x, v, d);
            assert(bb[x] == (if up {
                key_min(s[x], s[x + d])
            } else {
                key_max(s[x], s[x + d])
            }));
            assert(bb[y] == (if up {
                key_max(s[v], s[v + d])
            } else {
                key_min(s[v], s[v + d])
            }));
            if up {
                lemma_pairs_ordered(s, d, x, v);
            } else {
                lemma_pairs_ordered(s, d, v, x);
            }
        } else {
            // Distinct pair blocks: the old block order carries over, since
            // each new key is one of the old keys of its pair block.
            assert(x / (2 * d) < y / (2 * d)) by {
                lemma_div_is_ordered(x / d, y / d, 2);
                lemma_div_denominator(x / d, 2, 1);
            }
            let jx = spec_partner(x, e);
            let jy = spec_partner(y, e);
            assert(bb[x] == s[x] || bb[x] == s[jx]);
            assert(bb[y] == s[y] || bb[y] == s[jy]);
            let xm: int = if bb[x] == s[x] {
                x
            } else {
                jx
            };
            let ym: int = if bb[y] == s[y] {
                y
            } else {
                jy
            };
            assert(xm / (2 * d) == x / (2 * d) && ym / (2 * d) == y / (2 * d));
            assert(xm / bs == x / bs && ym / bs == y / bs);
            lemma_quot_ordered(xm, ym, 2 * d);
            assert(xm / (2 * d) < ym / (2 * d));
        }
    }
    assert(blocks_ordered(bb, d, bs, asc));
}

/// A buffer whose `2^stage`-blocks are sorted in alternating directions
/// meets the merge invariant of stage `stage` before its first pass: each
/// pair of adjacent sorted blocks forms one alternation-free merge block.
proof fn lemma_stage_init(s: Seq<u32>, k: nat, stage: nat, asc: bool)
    requires
        s.len() == pow2(k),
        1 <= stage < k,
        all_binary(s),
        blocks_ordered(s, 1, pow2(stage) as int, asc),
    ensures
        spec_minv(s, stage, 0, asc),
{
    let hs = pow2(stage) as int;
    let bs = pow2((stage + 1) as nat) as int;
    let n = s.len() as int;
    lemma_pow2_pos(stage);
    lemma_pow2_pos((stage + 1) as nat);
    lemma_pow2_unfold((stage + 1) as nat);
    assert(bs == 2 * hs);
    assert(pow2((stage + 1 - 0) as nat) == bs);
    broadcast use vstd::arithmetic::div_mod::lemma_div_basics_2;

    assert forall|a: int, b: int, c: int, f: int|
        0 <= a < b && b < c && c < f && f < n && a / bs == f / bs implies !(#[trigger] s[a]
            < #[trigger] s[b] && s[b] > #[trigger] s[c] && s[c] < #[trigger] s[f]) && !(s[a] > s[b]
            && s[b] < s[c] && s[c] > s[f]) by {
        lemma_div_is_ordered(a, b, hs);
        lemma_div_is_ordered(b, c, hs);
        lemma_div_is_ordered(c, f, hs);
        lemma_div_is_ordered(a, b, bs);
        lemma_div_is_ordered(b, c, bs);
        lemma_div_is_ordered(c, f, bs);
        lemma_div_denominator(a, hs, 2);
        lemma_div_denominator(b, hs, 2);
        lemma_div_denominator(c, hs, 2);
        lemma_div_denominator(f, hs, 2);
        assert((a / hs) / 2 == a / bs && (b / hs) / 2 == b / bs && (c / hs) / 2 == c / bs && (f
            / hs) / 2 == f / bs);
        assert(a / 1 == a && b / 1 == b && c / 1 == c && f / 1 == f);
        vstd::arithmetic::div_mod::lemma_div_pos_is_pos(a, hs);
        vstd::arithmetic::div_mod::lemma_div_pos_is_pos(b, hs);
        vstd::arithmetic::div_mod::lemma_div_pos_is_pos(c, hs);
        vstd::arithmetic::div_mod::lemma_div_pos_is_pos(f, hs);
        lemma_fundamental_div_mod(a / hs, 2);
        lemma_fundamental_div_mod(b / hs, 2);
        lemma_fundamental_div_mod(c / hs, 2);
        lemma_fundamental_div_mod(f / hs, 2);
        lemma_mod_division_less_than_divisor(a / hs, 2);
        lemma_mod_division_less_than_divisor(b / hs, 2);
        lemma_mod_division_less_than_divisor(c / hs, 2);
        lemma_mod_division_less_than_divisor(f / hs, 2);
    }
    assert(blocks_smooth(s, bs));
}

/// The merge invariant holds of a zero-one buffer at every point of the
/// schedule: it is trivial when stage 0 begins, every pass preserves it,
/// and a completed stage initializes the next one.
proof fn lemma_net_minv(s: Seq<u32>, asc: bool, k: nat, stage: nat, p: nat)
    requires
        all_binary(s),
        s.len() == pow2(k),
        stage < k,
        p <= stage,
    ensures
        spec_net_before(s, asc, stage, p).len() == s.len(),
        spec_minv(spec_net_before(s, asc, stage, p), stage, p, asc),
    decreases stage, p,
{
    lemma2_to64();
    if p == 0 {
        if stage == 0 {
            assert(spec_net_before(s, asc, 0, 0) == s);
            assert forall|a: int, b: int, c: int, f: int|
                0 <= a < b && b < c && c < f && f < s.len() && a / 2 == f / 2 implies !(
            #[trigger] s[a] < #[trigger] s[b] && s[b] > #[trigger] s[c] && s[c] < #[trigger] s[f])
                && !(s[a] > s[b] && s[b] < s[c] && s[c] > s[f]) by {
                lemma_same_quot_close(a, f, 2);
            }
            assert(blocks_smooth(s, pow2(1) as int));
            assert(blocks_ordered(s, pow2(1) as int, pow2(1) as int, asc));
        } else {
            lemma_net_minv(s, asc, k, (stage - 1) as nat, (stage - 1) as nat);
            let prev = spec_net_before(s, asc, (stage - 1) as nat, (stage - 1) as nat);
            lemma_merge_step(prev, k, (stage - 1) as nat, (stage - 1) as nat, asc);
            let cur = spec_pass(prev, (stage - 1) as nat, (stage - 1) as nat, asc);
            assert(cur == spec_net_before(s, asc, stage, 0));
            assert(pow2(((stage - 1) + 1 - ((stage - 1) + 1)) as nat) == 1);
            assert(spec_minv(cur, (stage - 1) as nat, stage, asc));
            assert(blocks_ordered(cur, 1, pow2(stage) as int, asc));
            lemma_stage_init(cur, k, stage, asc);
        }
    } else {
        lemma_net_minv(s, asc, k, stage, (p - 1) as nat);
        lemma_merge_step(spec_net_before(s, asc, stage, (p - 1) as nat), k, stage, (p - 1) as nat, asc);
    }
}

/// The full network sorts every zero-one buffer in the requested order.
proof fn lemma_network_sorted_binary(s: Seq<u32>, order: SortOrder, k: nat)
    requires
        all_binary(s),
        s.len() == pow2(k),
    ensures
        spec_sorted_keys(spec_network(s, order is Ascending, k), order),
        spec_network(s, order is Ascending, k).len() == s.len(),
{
    lemma2_to64();
    let asc = order is Ascending;
    let r = spec_network(s, asc, k);
    if k == 0 {
        assert(r == s);
    } else {
        broadcast use vstd::arithmetic::div_mod::lemma_div_basics_2;

        lemma_net_minv(s, asc, k, (k - 1) as nat, (k - 1) as nat);
        let prev = spec_net_before(s, asc, (k - 1) as nat, (k - 1) as nat);
        lemma_merge_step(prev, k, (k - 1) as nat, (k - 1) as nat, asc);
        assert(r == spec_pass(prev, (k - 1) as nat, (k - 1) as nat, asc));
        assert(spec_minv(r, (k - 1) as nat, k, asc));
        assert(pow2(((k - 1) + 1 - ((k - 1) + 1)) as nat) == 1);
        assert(blocks_ordered(r, 1, pow2(k) as int, asc));
        let n = r.len() as int;
        assert forall|i: int, j: int| 0 <= i <= j < n implies (if order is Ascending {
            #[trigger] r[i] <= #[trigger] r[j]
        } else {
            r[i] >= r[j]
        }) by {
            if i < j {
                lemma_basic_div(i, pow2(k) as int);
                lemma_basic_div(j, pow2(k) as int);
                assert(i / 1 == i && j / 1 == j);
                assert(spec_block_up(i / pow2(k) as int, asc) == asc);
            }
        }
    }
}

/// A non-decreasing map of keys.
pub open spec fn spec_monotone(f: spec_fn(u32) -> u32) -> bool {
    forall|a: u32, b: u32| a <= b ==> #[trigger] f(a) <= #[trigger] f(b)
}

/// One pass commutes with every monotone map of the keys: comparisons only
/// take minima and maxima, which a monotone map preserves.
proof fn lemma_pass_map(s: Seq<u32>, stage: nat, p: nat, asc: bool, f: spec_fn(u32) -> u32)
    requires
        spec_monotone(f),
    ensures
        spec_pass(s.map_values(f), stage, p, asc) == spec_pass(s, stage, p, asc).map_values(f),
{
    let sm = s.map_values(f);
    let lhs = spec_pass(sm, stage, p, asc);
    let rhs = spec_pass(s, stage, p, asc).map_values(f);
    assert forall|i: int| 0 <= i < s.len() implies lhs[i] == rhs[i] by {
        let e = (stage - p) as nat;
        let j = spec_partner(i, e);
        if 0 <= j < s.len() {
            assert(f(s[i]) <= f(s[j]) || f(s[j]) <= f(s[i]));
        }
    }
    assert(lhs =~= rhs);
}

/// The buffer at every point of the schedule commutes with every monotone
/// map of the keys, and its length never changes.
proof fn lemma_net_before_map(
    s: Seq<u32>,
    asc: bool,
    stage: nat,
    p: nat,
    f: spec_fn(u32) -> u32,
)
    requires
        spec_monotone(f),
    ensures
        spec_net_before(s.map_values(f), asc, stage, p) == spec_net_before(
            s,
            asc,
            stage,
            p,
        ).map_values(f),
        spec_net_before(s, asc, stage, p).len() == s.len(),
    decreases stage, p,
{
    if p == 0 {
        if stage == 0 {
        } else {
            lemma_net_before_map(s, asc, (stage - 1) as nat, (stage - 1) as nat, f);
            lemma_pass_map(
                spec_net_before(s, asc, (stage - 1) as nat, (stage - 1) as nat),
                (stage - 1) as nat,
                (stage - 1) as nat,
                asc,
                f,
            );
        }
    } else {
        lemma_net_before_map(s, asc, stage, (p - 1) as nat, f);
        lemma_pass_map(spec_net_before(s, asc, stage, (p - 1) as nat), stage, (p - 1) as nat, asc, f);
    }
}

/// The zero-one principle, applied: the full network sorts every key buffer
/// in the requested order. A violation would survive the monotone threshold
/// map that sends the keys above it to one and the rest to zero, yet the
/// network provably sorts every zero-one buffer.
pub proof fn lemma_network_sorted(s: Seq<u32>, order: SortOrder, k: nat)
    requires
        s.len() == pow2(k),
    ensures
        spec_sorted_keys(spec_network(s, order is Ascending, k), order),
        spec_network(s, order is Ascending, k).len() == s.len(),
{
    let asc = order is Ascending;
    let r = spec_network(s, asc, k);
    lemma_net_before_map(s, asc, k, 0, |v: u32| v);
    assert(r.len() == s.len());
    assert forall|i: int, j: int| 0 <= i <= j < r.len() implies (if order is Ascending {
        #[trigger] r[i] <= #[trigger] r[j]
    } else {
        r[i] >= r[j]
    }) by {
        let c: u32 = if asc {
            r[i]
        } else {
            r[j]
        };
        let f = (|v: u32| if v >= c {
            1u32
        } else {
            0u32
        });
        assert(spec_monotone(f));
        let sm = s.map_values(f);
        assert(all_binary(sm));
        lemma_net_before_map(s, asc, k, 0, f);
        lemma_network_sorted_binary(sm, order, k);
        let rm = spec_network(sm, asc, k);
        assert(rm == r.map_values(f));
        assert(rm[i] == f(r[i]) && rm[j] == f(r[j]));
        if asc {
            assert(f(r[i]) == 1);
            assert(rm[i] <= rm[j]);
        } else {
            assert(f(r[j]) == 1);
            assert(rm[i] >= rm[j]);
        }
    }
}

} // verus!
