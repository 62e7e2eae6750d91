//! False-positive rates and the sizing of a filter from its capacity and rate.
//!
//! A rate is an exact fraction `num / den` with `0 < num < den`. Sizing
//! evaluates `m = ceil(-n * ln(p) / (ln 2)^2)` and `k = ceil((m / n) * ln 2)`
//! with integers only: `-ln(p) / (ln 2)^2` equals `log2(1/p) * log2(e)`, and
//! `log2(1/p)` is computed in fixed point with `FRACTION_BITS` fractional bits
//! by the classic shift-and-square method.
use vstd::arithmetic::power2::*;
use vstd::prelude::*;

verus! {

/// One in the fixed-point format used by sizing: 2 to the power 30.
pub const ONE: u64 = 0x4000_0000;

/// Number of fractional bits that the logarithm is computed with.
pub const FRACTION_BITS: u64 = 30;

/// log2(e) in fixed point, rounded to nearest.
pub const LOG2_E: u64 = 1549082005;

/// ln(2) in fixed point, rounded to nearest.
pub const LN_2: u64 = 744261118;

/// A false-positive rate, held as the exact fraction `num / den` in (0, 1).
#[derive(Debug, Clone, Copy)]
pub struct ErrorRate {
    num: u64,
    den: u64,
}

impl View for ErrorRate {
    type V = (nat, nat);

    /// The fraction, as (numerator, denominator).
    closed spec fn view(&self) -> (nat, nat) {
        (self.num as nat, self.den as nat)
    }
}

impl ErrorRate {
    #[verifier::type_invariant]
    spec fn inv(self) -> bool {
        0 < self.num < self.den
    }

    /// The rate `num / den`; `None` unless `0 < num < den`.
    pub fn new(num: u64, den: u64) -> (r: Option<ErrorRate>)
        ensures
            r is Some <==> 0 < num < den,
            r matches Some(e) ==> e@ == (num as nat, den as nat),
    {
        if 0 < num && num < den {
            Some(ErrorRate { num, den })
        } else {
            None
        }
    }

    pub fn numerator(&self) -> (r: u64)
        ensures
            r == self@.0,
            0 < self@.0 < self@.1,
    {
        proof {
            use_type_invariant(self);
        }
        self.num
    }

    pub fn denominator(&self) -> (r: u64)
        ensures
            r == self@.1,
            0 < self@.0 < self@.1,
    {
        proof {
            use_type_invariant(self);
        }
        self.den
    }
}

/// Doubles `num` while it stays at most `den`; gives how many doublings were
/// made (the integer part of `log2(den / num)`) and the doubled value.
pub open spec fn halvings(num: nat, den: nat, count: nat) -> (nat, nat)
    decreases den - num,
{
    if 0 < num && 2 * num <= den {
        halvings((2 * num) as nat, den, count + 1)
    } else {
        (count, num)
    }
}

/// `steps` more fractional bits of `log2(y / ONE)`, for `ONE <= y < 2 * ONE`,
/// appended to `acc`: square, and emit a one exactly when the square reaches 2.
pub open spec fn log2_fraction(y: nat, steps: nat, acc: nat) -> nat
    decreases steps,
{
    if steps == 0 {
        acc
    } else {
        let z = (y * y / (ONE as nat)) as nat;
        if z >= 2 * ONE {
            log2_fraction(z / 2, (steps - 1) as nat, (2 * acc + 1) as nat)
        } else {
            log2_fraction(z, (steps - 1) as nat, (2 * acc) as nat)
        }
    }
}

/// `log2(den / num)` in fixed point with `FRACTION_BITS` fractional bits.
pub open spec fn log2_fixed(num: nat, den: nat) -> nat {
    let (whole, shifted) = halvings(num, den, 0);
    (whole * ONE + log2_fraction((den * ONE / (shifted as int)) as nat, FRACTION_BITS as nat, 0)) as nat
}

pub open spec fn ceil_div(a: nat, b: nat) -> nat {
    if b == 0 { 0 } else { ((a + b - 1) as nat) / b }
}

/// Bit-field length for `capacity` keys at rate `num / den`: a fixed-point
/// evaluation of `ceil(capacity * log2(den / num) * log2(e))`, with the
/// logarithm truncated to `FRACTION_BITS` fractional bits and `log2(e)`
/// rounded to as many, and at least one.
pub open spec fn filter_bits(capacity: nat, num: nat, den: nat) -> nat {
    let m = ceil_div((capacity * log2_fixed(num, den) * LOG2_E) as nat, (ONE * ONE) as nat);
    if m == 0 { 1 } else { m }
}

/// Probe count for `bits` bits and `capacity` keys: a fixed-point evaluation
/// of `ceil(bits / capacity * ln 2)`, with `ln 2` rounded to `FRACTION_BITS`
/// fractional bits, and at least one.
pub open spec fn filter_probes(capacity: nat, bits: nat) -> nat {
    let k = ceil_div((bits * LN_2) as nat, (capacity * ONE) as nat);
    if k == 0 { 1 } else { k }
}

/// The integer part of `log2(den / num)`, with the shifted numerator.
fn whole_log2(num: u64, den: u64) -> (r: (u64, u128))
    requires
        0 < num < den,
    ensures
        (r.0 as nat, r.1 as nat) == halvings(num as nat, den as nat, 0),
        r.0 < 64,
        0 < r.1 <= den < 2 * r.1,
{
    let mut shifted: u128 = num as u128;
    let mut count: u64 = 0;
    proof {
        lemma2_to64();
    }
    while shifted * 2 <= den as u128
        invariant
            0 < shifted <= den,
            pow2(count as nat) <= shifted,
            halvings(shifted as nat, den as nat, count as nat) == halvings(
                num as nat,
                den as nat,
                0,
            ),
            pow2(64) == 0x1_0000_0000_0000_0000,
        decreases den - shifted,
    {
        proof {
            lemma_pow2_unfold(count as nat + 1);
            if count >= 64 {
                lemma_pow2_strictly_increases(64, count as nat);
            }
        }
        shifted = shifted * 2;
        count = count + 1;
    }
    proof {
        if count > 64 {
            lemma_pow2_strictly_increases(64, count as nat);
        }
    }
    (count, shifted)
}

/// `log2(den / num)` in fixed point.
fn log2_fixed_exec(num: u64, den: u64) -> (r: u64)
    requires
        0 < num < den,
    ensures
        r == log2_fixed(num as nat, den as nat),
        r < 64 * ONE,
{
    let (whole, shifted) = whole_log2(num, den);
    assert((den as u128) * (ONE as u128) <= u64::MAX * ONE) by (nonlinear_arith)
        requires
            den <= u64::MAX,
    {}
    let start: u128 = (den as u128) * (ONE as u128) / shifted;
    proof {
        assert(start >= ONE) by (nonlinear_arith)
            requires
                start == (den as int) * (ONE as int) / (shifted as int),
                0 < shifted <= den,
        {
            assert((den as int) * (ONE as int) >= (shifted as int) * ONE);
        }
        assert(start < 2 * ONE) by (nonlinear_arith)
            requires
                start == (den as int) * (ONE as int) / (shifted as int),
                0 < shifted,
                den < 2 * shifted,
        {}
    }
    let mut y: u64 = start as u64;
    let mut acc: u64 = 0;
    let mut step: u64 = 0;
    proof {
        lemma2_to64();
    }
    while step < FRACTION_BITS
        invariant
            step <= FRACTION_BITS,
            y < 2 * ONE,
            acc < pow2(step as nat),
            log2_fraction(y as nat, (FRACTION_BITS - step) as nat, acc as nat) == log2_fraction(
                start as nat,
                FRACTION_BITS as nat,
                0,
            ),
            pow2(30) == ONE,
        decreases FRACTION_BITS - step,
    {
        proof {
            assert(y * y < 4 * ONE * ONE) by (nonlinear_arith)
                requires
                    y < 2 * ONE,
            {}
            lemma_pow2_unfold(step as nat + 1);
            lemma_pow2_strictly_increases(step as nat, 30);
        }
        let z: u64 = y * y / ONE;
        if z >= 2 * ONE {
            y = z / 2;
            acc = 2 * acc + 1;
        } else {
            y = z;
            acc = 2 * acc;
        }
        step = step + 1;
    }
    whole * ONE + acc
}

/// The size `(bits, probes)` of a filter for `capacity` keys at `rate`;
/// `None` exactly when the bit count does not fit in a `usize`.
pub fn filter_size(capacity: usize, rate: &ErrorRate) -> (r: Option<(usize, u32)>)
    requires
        capacity > 0,
    ensures
        r is Some <==> filter_bits(capacity as nat, rate@.0, rate@.1) <= usize::MAX,
        r matches Some(size) ==> size.0 == filter_bits(capacity as nat, rate@.0, rate@.1)
            && size.1 == filter_probes(capacity as nat, size.0 as nat) && 0 < size.0 && 1 <= size.1,
{
    proof {
        use_type_invariant(rate);
    }
    let log = log2_fixed_exec(rate.num, rate.den);
    assert((log as u128) * (LOG2_E as u128) < 0x8_0000_0000_0000_0000) by (nonlinear_arith)
        requires
            log < 64 * ONE,
    {}
    let per_key: u128 = (log as u128) * (LOG2_E as u128);
    let n: u128 = capacity as u128;
    assert((ONE as int) * (ONE as int) == 0x1000_0000_0000_0000) by (nonlinear_arith);
    let scale: u128 = 0x1000_0000_0000_0000;
    assert((capacity as int) * (log as int) * (LOG2_E as int) == (n as int) * (per_key as int))
        by (nonlinear_arith)
        requires
            n == capacity,
            per_key == (log as int) * (LOG2_E as int),
    {}
    let product = match n.checked_mul(per_key) {
        Some(p) => p,
        None => {
            assert(ceil_div(((n as int) * (per_key as int)) as nat, scale as nat) > usize::MAX)
                by (nonlinear_arith)
                requires
                    (n as int) * (per_key as int) > u128::MAX,
                    scale == 0x1000_0000_0000_0000,
                    usize::MAX <= u64::MAX,
            {}
            return None;
        },
    };
    let mut bits: u128 = product / scale + if product % scale == 0 {
        0
    } else {
        1
    };
    assert(bits == ceil_div(product as nat, scale as nat)) by (nonlinear_arith)
        requires
            bits == product / scale + if product % scale == 0 {
                0int
            } else {
                1int
            },
            scale == 0x1000_0000_0000_0000,
    {}
    assert(bits <= 128 * n + 1) by (nonlinear_arith)
        requires
            bits == product / scale + if product % scale == 0 {
                0int
            } else {
                1int
            },
            product == n * per_key,
            per_key < 0x8_0000_0000_0000_0000,
            scale == 0x1000_0000_0000_0000,
    {}
    if bits == 0 {
        bits = 1;
    }
    if bits > usize::MAX as u128 {
        return None;
    }
    let bits = bits as usize;
    assert(n * (ONE as u128) <= u64::MAX * ONE) by (nonlinear_arith)
        requires
            n <= u64::MAX,
    {}
    let denom: u128 = n * (ONE as u128);
    assert((bits as u128) * (LN_2 as u128) <= u64::MAX * LN_2) by (nonlinear_arith)
        requires
            bits <= u64::MAX,
    {}
    let spread: u128 = (bits as u128) * (LN_2 as u128);
    assert(spread < 129 * denom) by (nonlinear_arith)
        requires
            spread == (bits as u128) * (LN_2 as u128),
            denom == n * (ONE as u128),
            n >= 1,
            bits <= 128 * n + 1,
    {}
    let mut probes: u128 = (spread + denom - 1) / denom;
    assert(probes <= 129) by (nonlinear_arith)
        requires
            probes == (spread + denom - 1) as int / (denom as int),
            spread < 129 * denom,
            denom > 0,
    {}
    if probes == 0 {
        probes = 1;
    }
    Some((bits, probes as u32))
}

/// Sizing is a function of the capacity and the rate alone, and always
/// gives at least one bit and at least one probe.
pub proof fn lemma_sizing_valid(capacity: nat, num: nat, den: nat)
    requires
        capacity >= 1,
        0 < num < den,
    ensures
        filter_bits(capacity, num, den) >= 1,
        filter_probes(capacity, filter_bits(capacity, num, den)) >= 1,
{
}

} // verus!
