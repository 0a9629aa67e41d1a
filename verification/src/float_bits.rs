//! Floating-point numbers as integers: the bits of a 64-bit IEEE 754 number, and order keys that
//! compare as the numbers do.
use vstd::arithmetic::power2::{
    lemma_pow2_pos, lemma_pow2_strictly_increases, lemma_pow2_unfold, pow2,
};
use vstd::prelude::*;

verus! {

/// Values of the fraction field.
pub const FRACTIONS: u64 = 0x10_0000_0000_0000;

/// The sign bit.
pub const SIGN: u64 = 0x8000_0000_0000_0000;

/// The bits of infinity.
pub const INFINITY: u64 = 0x7ff0_0000_0000_0000;

/// The bits are those of no number.
pub open spec fn is_nan(bits: u64) -> bool {
    bits % SIGN > INFINITY
}

/// The size of the number, in units of the smallest positive one. Infinity counts as the number
/// that would come after the largest.
pub open spec fn magnitude(bits: u64) -> int {
    let exponent = (bits % SIGN) / FRACTIONS;
    let fraction = bits % FRACTIONS;
    if exponent == 0 {
        fraction as int
    } else {
        (FRACTIONS + fraction) * pow2((exponent - 1) as nat)
    }
}

/// The number, in units of the smallest positive one.
pub open spec fn value(bits: u64) -> int {
    if bits < SIGN {
        magnitude(bits)
    } else {
        -magnitude(bits)
    }
}

/// The order key of a number.
pub open spec fn key_of(bits: u64) -> i64 {
    if bits < SIGN {
        bits as i64
    } else {
        (-(bits - SIGN)) as i64
    }
}

/// The order key of a number, `None` for no number.
pub fn number_key(bits: u64) -> (key: Option<i64>)
    ensures
        key == if is_nan(bits) {
            None
        } else {
            Some(key_of(bits))
        },
{
    if bits % SIGN > INFINITY {
        None
    } else if bits < SIGN {
        Some(bits as i64)
    } else {
        Some(-((bits - SIGN) as i64))
    }
}

/// The order key of an error; no number is no error.
pub fn error_key(bits: u64) -> (key: i64)
    ensures
        key == if is_nan(bits) {
            0
        } else {
            key_of(bits)
        },
{
    match number_key(bits) {
        Some(key) => key,
        None => 0,
    }
}

/// The order key of an error bound; no number bounds nothing.
pub fn threshold_key(bits: u64) -> (key: i64)
    ensures
        key == if is_nan(bits) {
            i64::MAX
        } else {
            key_of(bits)
        },
{
    match number_key(bits) {
        Some(key) => key,
        None => i64::MAX,
    }
}

/// Higher bits mean a larger size.
proof fn lemma_magnitude_increases(a: u64, b: u64)
    requires
        a < b < SIGN,
    ensures
        0 <= magnitude(a) < magnitude(b),
{
    let ea = a / FRACTIONS;
    let eb = b / FRACTIONS;
    let fa = (a % FRACTIONS) as int;
    let fb = (b % FRACTIONS) as int;
    assert(a == ea * FRACTIONS + fa && b == eb * FRACTIONS + fb);
    assert(ea <= eb);
    if ea == eb {
        assert(fa < fb);
        if ea > 0 {
            let p = pow2((ea - 1) as nat) as int;
            lemma_pow2_pos((ea - 1) as nat);
            lemma_scaled(FRACTIONS + fa, FRACTIONS + fb, p, p);
        }
    } else if ea == 0 {
        let p = pow2((eb - 1) as nat) as int;
        lemma_pow2_pos((eb - 1) as nat);
        assert((FRACTIONS + fb) * p >= FRACTIONS) by (nonlinear_arith)
            requires
                fb >= 0,
                p >= 1,
        ;
    } else {
        let p = pow2((ea - 1) as nat) as int;
        let q = pow2((eb - 1) as nat) as int;
        lemma_pow2_pos((ea - 1) as nat);
        lemma_pow2_unfold(ea as nat);
        if ea < eb - 1 {
            lemma_pow2_strictly_increases(ea as nat, (eb - 1) as nat);
        }
        assert(2 * p <= q);
        assert(0 <= (FRACTIONS + fa) * p && (FRACTIONS + fa) * p < 2 * FRACTIONS * p) by (
        nonlinear_arith)
            requires
                0 <= fa < FRACTIONS,
                p >= 1,
        ;
        assert(2 * FRACTIONS * p <= (FRACTIONS + fb) * q) by (nonlinear_arith)
            requires
                2 * p <= q,
                0 <= fb,
                p >= 1,
        ;
    }
}

proof fn lemma_scaled(m: int, n: int, p: int, q: int)
    requires
        0 <= m < n,
        1 <= p <= q,
    ensures
        0 <= m * p < n * q,
{
    assert(0 <= m * p < n * q) by (nonlinear_arith)
        requires
            0 <= m < n,
            1 <= p <= q,
    ;
}

proof fn lemma_magnitude_of_key(bits: u64)
    ensures
        bits >= SIGN ==> magnitude(bits) == magnitude((bits - SIGN) as u64),
        magnitude(0) == 0,
{
    if bits >= SIGN {
        let b = (bits - SIGN) as u64;
        assert(bits % SIGN == b % SIGN);
        assert(bits % FRACTIONS == b % FRACTIONS);
    }
}

/// Order keys compare as the numbers do.
pub proof fn law_keys_compare_as_numbers(a: u64, b: u64)
    ensures
        key_of(a) < key_of(b) <==> value(a) < value(b),
        key_of(a) == key_of(b) <==> value(a) == value(b),
{
    lemma_magnitude_of_key(a);
    lemma_magnitude_of_key(b);
    let ma = if a < SIGN {
        a
    } else {
        (a - SIGN) as u64
    };
    let mb = if b < SIGN {
        b
    } else {
        (b - SIGN) as u64
    };
    if ma < mb {
        lemma_magnitude_increases(ma, mb);
    }
    if mb < ma {
        lemma_magnitude_increases(mb, ma);
    }
    if ma > 0 {
        lemma_magnitude_increases(0, ma);
    }
    if mb > 0 {
        lemma_magnitude_increases(0, mb);
    }
}

/// What the bits of a number mean: the sign bit negates, one more in the exponent field doubles,
/// and the numbers below the second exponent are counted by their bits. No number has all bits of
/// the exponent set and some of the fraction.
pub proof fn law_number_of_bits(bits: u64)
    ensures
        bits < SIGN ==> value((bits + SIGN) as u64) == -value(bits),
        FRACTIONS <= bits < SIGN - FRACTIONS ==> value((bits + FRACTIONS) as u64) == 2 * value(
            bits,
        ),
        bits < 2 * FRACTIONS ==> value(bits) == bits,
        is_nan(bits) <==> (bits / FRACTIONS) % 0x800 == 0x7ff && bits % FRACTIONS != 0,
{
    if bits < SIGN {
        lemma_magnitude_of_key((bits + SIGN) as u64);
    }
    if FRACTIONS <= bits < SIGN - FRACTIONS {
        let e = bits / FRACTIONS;
        let more = (bits + FRACTIONS) as u64;
        let m = FRACTIONS + bits % FRACTIONS;
        assert(more / FRACTIONS == e + 1 && more % FRACTIONS == bits % FRACTIONS);
        lemma_pow2_unfold(e as nat);
        let p = pow2((e - 1) as nat) as int;
        assert(m * (2 * p) == 2 * (m * p)) by (nonlinear_arith);
    }
    if bits < 2 * FRACTIONS {
        vstd::arithmetic::power2::lemma2_to64();
    }
}

/// The number kept between `-limit` and `limit`; no number stays none.
pub open spec fn clamped(bits: u64, limit: u64) -> u64 {
    if is_nan(bits) {
        bits
    } else if value(bits) < -value(limit) {
        (SIGN + limit) as u64
    } else if value(bits) > value(limit) {
        limit
    } else {
        bits
    }
}

/// The bits of a number of the other sign.
proof fn lemma_negated(limit: u64)
    requires
        limit <= INFINITY,
    ensures
        value((SIGN + limit) as u64) == -value(limit),
        value(limit) >= 0,
        key_of((SIGN + limit) as u64) == -limit,
        !is_nan((SIGN + limit) as u64),
        !is_nan(limit),
{
    lemma_magnitude_of_key((SIGN + limit) as u64);
    if limit > 0 {
        lemma_magnitude_increases(0, limit);
    }
}

/// Keeps a number between `-limit` and `limit`.
pub(crate) fn clamp(bits: u64, limit: u64) -> (out: u64)
    requires
        limit <= INFINITY,
    ensures
        out == clamped(bits, limit),
{
    proof {
        lemma_negated(limit);
        law_keys_compare_as_numbers(bits, (SIGN + limit) as u64);
        law_keys_compare_as_numbers(limit, bits);
    }
    match number_key(bits) {
        None => bits,
        Some(key) => {
            let top: i64 = limit as i64;
            if key < -top {
                SIGN + limit
            } else if key > top {
                limit
            } else {
                bits
            }
        },
    }
}

/// A clamped number lies within the limits, and clamping it again keeps it. A number within the
/// limits stays as it is, and one beyond them becomes the nearer limit.
pub proof fn law_clamped(bits: u64, limit: u64)
    requires
        limit <= INFINITY,
    ensures
        clamped(clamped(bits, limit), limit) == clamped(bits, limit),
        !is_nan(bits) ==> -value(limit) <= value(clamped(bits, limit)) <= value(limit),
        -value(limit) <= value(bits) <= value(limit) ==> clamped(bits, limit) == bits,
        !is_nan(bits) && value(bits) > value(limit) ==> value(clamped(bits, limit)) == value(limit),
        !is_nan(bits) && value(bits) < -value(limit) ==> value(clamped(bits, limit)) == -value(
            limit,
        ),
        is_nan(clamped(bits, limit)) == is_nan(bits),
{
    lemma_negated(limit);
}

} // verus!
