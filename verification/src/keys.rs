//! Order-preserving key encoding.
//!
//! Every sortable type is mapped to an unsigned 32-bit key such that the
//! type's natural order coincides with the unsigned order of the keys. The
//! rest of the engine sorts keys only, so this mapping is the correctness
//! foundation of the whole engine.

use vstd::prelude::*;

use crate::types::SortOrder;

verus! {

/// A type the engine can sort: it converts to and from an order-preserving
/// unsigned 32-bit key and has maximum and minimum sentinel values.
///
/// The proof obligations carry the laws every implementation must meet:
/// decoding inverts encoding and the other way round, and encoding
/// preserves the natural order.
pub trait SortableKey: Sized + Copy {
    /// The order-preserving key of this value.
    spec fn encode_spec(self) -> u32;

    /// The value a key decodes to.
    spec fn decode_spec(key: u32) -> Self;

    /// The type's natural order.
    spec fn le_spec(self, other: Self) -> bool;

    /// Law: decoding inverts encoding, for every representable value.
    proof fn lemma_round_trip(self)
        ensures
            Self::decode_spec(self.encode_spec()) == self,
    ;

    /// Law: two values compare under the natural order exactly as their keys
    /// compare as unsigned integers.
    proof fn lemma_encode_monotone(self, other: Self)
        ensures
            self.le_spec(other) <==> self.encode_spec() <= other.encode_spec(),
    ;

    /// Law: encoding inverts decoding, so values and keys are in bijection.
    proof fn lemma_decode_encode(key: u32)
        ensures
            Self::decode_spec(key).encode_spec() == key,
    ;

    /// Convert to the sortable unsigned representation.
    fn to_sortable_u32(&self) -> (r: u32)
        ensures
            r == self.encode_spec(),
    ;

    /// Convert back from the sortable representation.
    fn from_sortable_u32(val: u32) -> (r: Self)
        ensures
            r == Self::decode_spec(val),
    ;

    /// Whether a pair `(self, other)` read in this order is on the wrong side
    /// for `order` and must be exchanged.
    fn should_swap(&self, other: &Self, order: SortOrder) -> (r: bool)
        ensures
            r == (if order is Ascending {
                !self.le_spec(*other)
            } else {
                !other.le_spec(*self)
            }),
    ;

    /// The maximum sentinel of this type.
    fn max_value() -> (r: Self)
        ensures
            forall|x: Self| #[trigger] x.le_spec(r),
    ;

    /// The minimum sentinel of this type.
    fn min_value() -> (r: Self)
        ensures
            forall|x: Self| #[trigger] r.le_spec(x),
    ;
}

impl SortableKey for u32 {
    /// Unsigned integers are their own keys.
    open spec fn encode_spec(self) -> u32 {
        self
    }

    open spec fn decode_spec(key: u32) -> u32 {
        key
    }

    open spec fn le_spec(self, other: u32) -> bool {
        self <= other
    }

    proof fn lemma_round_trip(self) {
    }

    proof fn lemma_encode_monotone(self, other: u32) {
    }

    proof fn lemma_decode_encode(key: u32) {
    }

    fn to_sortable_u32(&self) -> u32 {
        *self
    }

    fn from_sortable_u32(val: u32) -> u32 {
        val
    }

    fn should_swap(&self, other: &u32, order: SortOrder) -> bool {
        match order {
            SortOrder::Ascending => *self > *other,
            SortOrder::Descending => *self < *other,
        }
    }

    fn max_value() -> u32 {
        u32::MAX
    }

    fn min_value() -> u32 {
        u32::MIN
    }
}

impl SortableKey for i32 {
    /// Flipping the sign bit shifts the signed range onto `0..=u32::MAX`:
    /// the key of `x` is `x + 2^31`.
    open spec fn encode_spec(self) -> u32 {
        (self + 0x8000_0000) as u32
    }

    open spec fn decode_spec(key: u32) -> i32 {
        (key - 0x8000_0000) as i32
    }

    open spec fn le_spec(self, other: i32) -> bool {
        self <= other
    }

    proof fn lemma_round_trip(self) {
    }

    proof fn lemma_encode_monotone(self, other: i32) {
    }

    proof fn lemma_decode_encode(key: u32) {
    }

    fn to_sortable_u32(&self) -> u32 {
        let r = (*self as u32) ^ 0x8000_0000;
        proof {
            lemma_i32_sign_flip(*self);
        }
        r
    }

    fn from_sortable_u32(val: u32) -> i32 {
        let r = (val ^ 0x8000_0000) as i32;
        proof {
            lemma_u32_sign_flip(val);
        }
        r
    }

    fn should_swap(&self, other: &i32, order: SortOrder) -> bool {
        match order {
            SortOrder::Ascending => *self > *other,
            SortOrder::Descending => *self < *other,
        }
    }

    fn max_value() -> i32 {
        i32::MAX
    }

    fn min_value() -> i32 {
        i32::MIN
    }
}

/// Whether an IEEE-754 single-precision bit pattern has its sign bit set
/// (negative values, including negative zero).
pub open spec fn f32_bits_is_negative(bits: u32) -> bool {
    bits >= 0x8000_0000
}

/// The magnitude bits of an IEEE-754 single-precision pattern: the pattern
/// with the sign bit cleared.
pub open spec fn f32_bits_magnitude(bits: u32) -> u32 {
    if bits >= 0x8000_0000 {
        (bits - 0x8000_0000) as u32
    } else {
        bits
    }
}

/// Whether a bit pattern denotes a NaN: magnitude above that of infinity.
pub open spec fn f32_bits_is_nan(bits: u32) -> bool {
    f32_bits_magnitude(bits) > 0x7F80_0000
}

/// IEEE-754 `<` on the values two non-NaN bit patterns denote. Negative
/// values order below positive ones by descending magnitude; the two zero
/// patterns compare equal.
pub open spec fn f32_bits_lt(a: u32, b: u32) -> bool {
    if f32_bits_is_negative(a) {
        if f32_bits_is_negative(b) {
            f32_bits_magnitude(a) > f32_bits_magnitude(b)
        } else {
            !(f32_bits_magnitude(a) == 0 && f32_bits_magnitude(b) == 0)
        }
    } else {
        if f32_bits_is_negative(b) {
            false
        } else {
            f32_bits_magnitude(a) < f32_bits_magnitude(b)
        }
    }
}

/// The key of an IEEE-754 single-precision bit pattern: negative patterns map
/// onto `0 .. 2^31` with their order reversed, others onto `2^31 .. 2^32`.
pub open spec fn spec_encode_f32_bits(bits: u32) -> u32 {
    if bits >= 0x8000_0000 {
        (0xFFFF_FFFF - bits) as u32
    } else {
        (bits + 0x8000_0000) as u32
    }
}

/// The IEEE-754 single-precision bit pattern a key decodes to.
pub open spec fn spec_decode_f32_bits(key: u32) -> u32 {
    if key >= 0x8000_0000 {
        (key - 0x8000_0000) as u32
    } else {
        (0xFFFF_FFFF - key) as u32
    }
}

/// Encodes a float's bit pattern as an order-preserving key: complement the
/// whole pattern when the sign bit is set, otherwise set the sign bit.
pub fn encode_f32_bits(bits: u32) -> (r: u32)
    ensures
        r == spec_encode_f32_bits(bits),
{
    if bits & 0x8000_0000 != 0 {
        proof {
            assert(bits & 0x8000_0000 != 0 ==> bits >= 0x8000_0000 && !bits == 0xFFFF_FFFF
                - bits) by (bit_vector);
        }
        !bits
    } else {
        proof {
            assert(bits & 0x8000_0000 == 0 ==> bits < 0x8000_0000 && (bits | 0x8000_0000) == bits
                + 0x8000_0000) by (bit_vector);
        }
        bits | 0x8000_0000
    }
}

/// Decodes a key back to a float's bit pattern, inverting `encode_f32_bits`:
/// clear the top bit when it is set, otherwise complement the whole key.
pub fn decode_f32_bits(key: u32) -> (r: u32)
    ensures
        r == spec_decode_f32_bits(key),
{
    if key & 0x8000_0000 != 0 {
        proof {
            assert(key & 0x8000_0000 != 0 ==> key >= 0x8000_0000 && (key & 0x7FFF_FFFF) == key
                - 0x8000_0000) by (bit_vector);
        }
        key & 0x7FFF_FFFF
    } else {
        proof {
            assert(key & 0x8000_0000 == 0 ==> key < 0x8000_0000 && !key == 0xFFFF_FFFF
                - key) by (bit_vector);
        }
        !key
    }
}

/// Law: decoding inverts encoding for every single-precision bit pattern,
/// the two zero patterns included.
pub proof fn lemma_f32_bits_round_trip(bits: u32)
    ensures
        spec_decode_f32_bits(spec_encode_f32_bits(bits)) == bits,
{
}

/// Law: the float encoding is order-preserving. Keys compare as unsigned
/// integers exactly as the denoted values compare under IEEE-754 `<`, except
/// that the key of negative zero sits directly below the key of positive
/// zero although the two values compare equal.
pub proof fn lemma_f32_bits_encode_monotone(a: u32, b: u32)
    requires
        !f32_bits_is_nan(a),
        !f32_bits_is_nan(b),
    ensures
        spec_encode_f32_bits(a) < spec_encode_f32_bits(b) <==> (f32_bits_lt(a, b) || (a
            == 0x8000_0000 && b == 0)),
{
}

/// Flipping the sign bit of a signed value, reinterpreted as unsigned,
/// adds `2^31` to it.
proof fn lemma_i32_sign_flip(x: i32)
    ensures
        (x as u32) ^ 0x8000_0000 == x + 0x8000_0000,
{
    if x >= 0 {
        let u = x as u32;
        assert(u < 0x8000_0000 ==> (u ^ 0x8000_0000) == u + 0x8000_0000) by (bit_vector);
    } else {
        assert(x < 0 ==> (x as u32) == x + 0x1_0000_0000) by (bit_vector);
        let u = x as u32;
        assert(u >= 0x8000_0000 ==> (u ^ 0x8000_0000) == u - 0x8000_0000) by (bit_vector);
    }
}

/// Flipping the top bit of a key, reinterpreted as signed, subtracts `2^31`.
proof fn lemma_u32_sign_flip(val: u32)
    ensures
        (val ^ 0x8000_0000) as i32 == val - 0x8000_0000,
{
    if val >= 0x8000_0000 {
        assert(val >= 0x8000_0000 ==> (val ^ 0x8000_0000) == val - 0x8000_0000) by (bit_vector);
    } else {
        assert(val < 0x8000_0000 ==> (val ^ 0x8000_0000) == val + 0x8000_0000) by (bit_vector);
        let w = val ^ 0x8000_0000;
        assert(w >= 0x8000_0000 ==> (w as i32) == w - 0x1_0000_0000) by (bit_vector);
    }
}

} // verus!
