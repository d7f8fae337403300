//! Orderings the engine scans with: byte-wise lexicographic comparison of
//! text fields, and the IEEE-754 `>` relation on 64-bit values carried as
//! bit patterns.

use vstd::prelude::*;

verus! {

/// Byte-wise lexicographic `a <= b`, the order timestamps are compared in.
pub open spec fn lex_le(a: Seq<u8>, b: Seq<u8>) -> bool
    decreases a.len(),
{
    if a.len() == 0 {
        true
    } else if b.len() == 0 {
        false
    } else if a[0] < b[0] {
        true
    } else if a[0] > b[0] {
        false
    } else {
        lex_le(a.skip(1), b.skip(1))
    }
}

/// Compares two byte strings lexicographically, byte by byte.
pub fn bytes_lex_le(a: &Vec<u8>, b: &Vec<u8>) -> (r: bool)
    ensures
        r == lex_le(a@, b@),
{
    let mut i: usize = 0;
    proof {
        assert(a@.skip(0) =~= a@);
        assert(b@.skip(0) =~= b@);
    }
    loop
        invariant
            0 <= i <= a@.len(),
            i <= b@.len(),
            forall|j: int| 0 <= j < i ==> a@[j] == b@[j],
            lex_le(a@, b@) == lex_le(a@.skip(i as int), b@.skip(i as int)),
        decreases a@.len() - i,
    {
        if i == a.len() {
            return true;
        }
        if i == b.len() {
            return false;
        }
        if a[i] < b[i] {
            return true;
        }
        if a[i] > b[i] {
            return false;
        }
        proof {
            assert(a@.skip(i as int).skip(1) =~= a@.skip(i as int + 1));
            assert(b@.skip(i as int).skip(1) =~= b@.skip(i as int + 1));
        }
        i = i + 1;
    }
}

/// Compares two byte strings for equality, byte by byte.
pub fn bytes_eq(a: &Vec<u8>, b: &Vec<u8>) -> (r: bool)
    ensures
        r == (a@ == b@),
{
    if a.len() != b.len() {
        return false;
    }
    let mut i: usize = 0;
    while i < a.len()
        invariant
            0 <= i <= a@.len(),
            a@.len() == b@.len(),
            forall|j: int| 0 <= j < i ==> a@[j] == b@[j],
        decreases a@.len() - i,
    {
        if a[i] != b[i] {
            return false;
        }
        i = i + 1;
    }
    proof {
        assert(a@ =~= b@);
    }
    true
}

/// Mask selecting the sign bit of a 64-bit float's bit pattern.
pub const F64_SIGN_MASK: u64 = 0x8000_0000_0000_0000;

/// Mask selecting magnitude (exponent and mantissa) of the bit pattern.
pub const F64_MAGNITUDE_MASK: u64 = 0x7fff_ffff_ffff_ffff;

/// Magnitude of an infinity; any larger magnitude is a NaN.
pub const F64_INF_MAGNITUDE: u64 = 0x7ff0_0000_0000_0000;

/// Whether the bit pattern denotes a NaN.
pub open spec fn f64_bits_is_nan(a: u64) -> bool {
    (a & F64_MAGNITUDE_MASK) > F64_INF_MAGNITUDE
}

/// The bit pattern's position on the real line, as a signed magnitude;
/// both zeroes map to 0.
pub open spec fn f64_bits_key(a: u64) -> int {
    if (a & F64_SIGN_MASK) == 0 {
        (a & F64_MAGNITUDE_MASK) as int
    } else {
        -((a & F64_MAGNITUDE_MASK) as int)
    }
}

/// The IEEE-754 `>` relation on two 64-bit values given as bit patterns:
/// false whenever either side is NaN, and otherwise the signed-magnitude
/// order, under which the two zeroes are equal.
pub open spec fn f64_bits_gt(a: u64, b: u64) -> bool {
    if f64_bits_is_nan(a) || f64_bits_is_nan(b) {
        false
    } else {
        f64_bits_key(a) > f64_bits_key(b)
    }
}

/// Decides `a > b` for two 64-bit float bit patterns.
pub fn f64_bits_gt_exec(a: u64, b: u64) -> (r: bool)
    ensures
        r == f64_bits_gt(a, b),
{
    let mag_a: u64 = a & F64_MAGNITUDE_MASK;
    let mag_b: u64 = b & F64_MAGNITUDE_MASK;
    if mag_a > F64_INF_MAGNITUDE || mag_b > F64_INF_MAGNITUDE {
        return false;
    }
    let neg_a: bool = (a & F64_SIGN_MASK) != 0;
    let neg_b: bool = (b & F64_SIGN_MASK) != 0;
    if neg_a && neg_b {
        mag_b > mag_a
    } else if neg_a {
        false
    } else if neg_b {
        mag_a > 0 || mag_b > 0
    } else {
        mag_a > mag_b
    }
}

} // verus!
