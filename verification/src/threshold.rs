//! The coverage threshold: a 64-bit float between 0 and 1, and the number of
//! bytes that it asks of a document. The product of document size and
//! threshold is taken as 64-bit float arithmetic takes it: the size is
//! rounded to 53 significant bits, the product is rounded to 53 significant
//! bits, ties going to the even neighbour, and the result is rounded up to a
//! whole number of bytes.

use vstd::prelude::*;
use vstd::arithmetic::div_mod::{
    lemma_div_denominator, lemma_div_is_ordered, lemma_div_multiples_vanish_quotient, lemma_fundamental_div_mod,
    lemma_truncate_middle,
};
use vstd::arithmetic::mul::lemma_mul_inequality;
use crate::error::PipelineError;

verus! {

/// `2` to the power `k`.
pub open spec fn two_to(k: nat) -> nat
    decreases k,
{
    if k == 0 {
        1
    } else {
        2 * two_to((k - 1) as nat)
    }
}

/// Powers of two multiply by adding their exponents.
pub proof fn lemma_two_to_adds(a: nat, b: nat)
    ensures
        two_to(a + b) == two_to(a) * two_to(b),
    decreases b,
{
    if b == 0 {
        assert(two_to(a) * 1 == two_to(a)) by (nonlinear_arith);
    } else {
        lemma_two_to_adds(a, (b - 1) as nat);
        assert(two_to(a) * (2 * two_to((b - 1) as nat)) == 2 * (two_to(a) * two_to((b - 1) as nat))) by (nonlinear_arith);
    }
}

/// Powers of two grow with their exponents.
pub proof fn lemma_two_to_grows(a: nat, b: nat)
    requires
        a <= b,
    ensures
        0 < two_to(a) <= two_to(b),
    decreases b,
{
    if a < b {
        lemma_two_to_grows(a, (b - 1) as nat);
    } else if b > 0 {
        lemma_two_to_grows((a - 1) as nat, (b - 1) as nat);
    }
}

/// The powers of two that the layout of a 64-bit float is made of.
pub proof fn lemma_two_to_values()
    ensures
        two_to(0) == 1,
        two_to(1) == 2,
        two_to(52) == 0x10_0000_0000_0000,
        two_to(53) == 0x20_0000_0000_0000,
        two_to(64) == 0x1_0000_0000_0000_0000,
        two_to(120) == 0x100_0000_0000_0000_0000_0000_0000_0000,
        two_to(127) == 0x8000_0000_0000_0000_0000_0000_0000_0000,
{
    reveal_with_fuel(two_to, 17);
    assert(two_to(16) == 0x1_0000);
    assert(two_to(4) == 16);
    assert(two_to(7) == 128);
    assert(two_to(8) == 256);
    lemma_two_to_adds(16, 16);
    assert(two_to(32) == 0x1_0000_0000);
    lemma_two_to_adds(32, 16);
    lemma_two_to_adds(48, 4);
    assert(two_to(52) == 0x10_0000_0000_0000);
    assert(two_to(53) == 2 * two_to(52));
    lemma_two_to_adds(32, 32);
    assert(two_to(64) == 0x1_0000_0000_0000_0000);
    lemma_two_to_adds(64, 48);
    lemma_two_to_adds(112, 8);
    assert(two_to(120) == 0x100_0000_0000_0000_0000_0000_0000_0000);
    lemma_two_to_adds(120, 7);
}

/// `a / d`, rounded up to a whole number.
pub open spec fn ceiling(a: nat, d: nat) -> nat {
    ((a + d - 1) / (d as int)) as nat
}

/// The ceiling of `a / d` times `d` reaches `a` and stays less than `d`
/// above it.
pub proof fn lemma_rounded_up(a: nat, d: nat)
    requires
        d > 0,
    ensures
        ceiling(a, d) * d >= a,
        ceiling(a, d) * d < a + d,
        ceiling(a, d) == (a + d - 1) / (d as int),
{
    let x = a + d - 1;
    let q = x / (d as int);
    assert(x == d * q + x % (d as int) && 0 <= x % (d as int) < d) by (nonlinear_arith)
        requires
            d > 0,
            q == x / (d as int),
    ;
    assert(q * d == d * q) by (nonlinear_arith);
    assert(q >= 0) by (nonlinear_arith)
        requires
            d * q + x % (d as int) >= 0,
            x % (d as int) < d,
            d > 0,
    ;
}

/// No smaller number than the ceiling of `a / d` reaches `a` when multiplied
/// by `d`.
pub proof fn lemma_rounded_up_least(a: nat, d: nat, c: int)
    requires
        d > 0,
        c * d >= a,
    ensures
        c >= ceiling(a, d),
{
    let q = ceiling(a, d);
    lemma_rounded_up(a, d);
    if c < q {
        assert(c * d <= (q - 1) * d) by (nonlinear_arith)
            requires
                c <= q - 1,
                d > 0,
        ;
        assert((q - 1) * d == q * d - d) by (nonlinear_arith);
    }
}

/// The larger of two fractions has the larger ceiling.
pub proof fn lemma_ceiling_monotone(a1: nat, d1: nat, a2: nat, d2: nat)
    requires
        d1 > 0,
        d2 > 0,
        a1 * d2 <= a2 * d1,
    ensures
        ceiling(a1, d1) <= ceiling(a2, d2),
{
    let c2 = ceiling(a2, d2);
    lemma_rounded_up(a2, d2);
    assert((c2 * d1) * d2 >= a1 * d2) by (nonlinear_arith)
        requires
            c2 * d2 >= a2,
            a1 * d2 <= a2 * d1,
            d1 > 0,
    ;
    assert(c2 * d1 >= a1) by (nonlinear_arith)
        requires
            (c2 * d1) * d2 >= a1 * d2,
            d2 > 0,
    ;
    lemma_rounded_up_least(a1, d1, c2 as int);
}

/// A fraction that is at most 1 has the ceiling 1, or 0 where it is 0.
pub proof fn lemma_ceiling_small(a: nat, d: nat)
    requires
        0 < d,
        a <= d,
    ensures
        ceiling(a, d) == if a == 0 { 0nat } else { 1nat },
{
    lemma_rounded_up(a, d);
    let c = ceiling(a, d);
    if a == 0 {
        assert(0 * d == 0) by (nonlinear_arith);
        lemma_rounded_up_least(a, d, 0);
    } else {
        assert(1 * d == d) by (nonlinear_arith);
        lemma_rounded_up_least(a, d, 1);
        assert(c >= 1) by (nonlinear_arith)
            requires
                c * d >= a,
                a > 0,
                d > 0,
                c >= 0,
        ;
    }
}

/// The bits of a 64-bit float without the sign: exponent and mantissa.
pub open spec fn f64_magnitude(bits: u64) -> nat {
    (bits % 0x8000_0000_0000_0000) as nat
}

/// The eleven exponent bits of a 64-bit float.
pub open spec fn f64_exponent(bits: u64) -> nat {
    f64_magnitude(bits) / 0x10_0000_0000_0000
}

/// The 52 mantissa bits of a 64-bit float.
pub open spec fn f64_mantissa(bits: u64) -> nat {
    f64_magnitude(bits) % 0x10_0000_0000_0000
}

/// The float with these bits is a number between 0 and 1: it is zero, or it
/// is positive with an exponent below that of 1, or it is 1.
pub open spec fn f64_in_unit_interval(bits: u64) -> bool {
    ||| f64_magnitude(bits) == 0
    ||| bits < 0x8000_0000_0000_0000 && f64_exponent(bits) < 1023
    ||| bits == 0x3ff0_0000_0000_0000
}

/// The whole number that a float between 0 and 1 is a binary fraction of:
/// the mantissa, with the leading 1 that a normal float leaves out.
pub open spec fn f64_significand(bits: u64) -> nat {
    if f64_exponent(bits) == 0 {
        f64_mantissa(bits)
    } else {
        0x10_0000_0000_0000 + f64_mantissa(bits)
    }
}

/// Number of binary places of a float between 0 and 1: its value is
/// `f64_significand / 2^f64_places`.
pub open spec fn f64_places(bits: u64) -> nat {
    if f64_exponent(bits) == 0 {
        1074
    } else {
        (1075 - f64_exponent(bits)) as nat
    }
}

/// Number of bits that `n` has beyond 53.
pub open spec fn excess_bits(n: nat) -> nat
    decreases n,
{
    if n < 0x20_0000_0000_0000 {
        0
    } else {
        1 + excess_bits(n / 2)
    }
}

/// The multiple of `unit` nearest to `n`; where two are equally near, the
/// even multiple.
pub open spec fn round_to_even(n: nat, unit: nat) -> nat {
    let q = n / unit;
    let rem = n % unit;
    if 2 * rem > unit || (2 * rem == unit && q % 2 == 1) {
        ((q + 1) * unit) as nat
    } else {
        q * unit
    }
}

/// `n` rounded to 53 significant bits, ties to even: the whole number that a
/// 64-bit float holds in place of `n`.
pub open spec fn round53(n: nat) -> nat {
    round_to_even(n, two_to(excess_bits(n)))
}

/// Number of bytes that a threshold asks of a document: the size as a float,
/// times the threshold `significand / 2^places`, as a float, rounded up to a
/// whole number, and no more than the machine can count.
pub open spec fn required_coverage(doc_size: nat, significand: nat, places: nat) -> nat {
    let product = round53(round53(doc_size) * significand);
    let whole = ceiling(product, two_to(places));
    if whole > usize::MAX {
        usize::MAX as nat
    } else {
        whole
    }
}

/// Without its excess bits a number has at most 53 bits, and exactly 53
/// where it had any excess.
pub proof fn lemma_excess_bits(n: nat)
    ensures
        two_to(excess_bits(n)) > 0,
        n / two_to(excess_bits(n)) < 0x20_0000_0000_0000,
        excess_bits(n) > 0 ==> n / two_to(excess_bits(n)) >= 0x10_0000_0000_0000,
    decreases n,
{
    reveal_with_fuel(two_to, 2);
    if n >= 0x20_0000_0000_0000 {
        let half = n / 2;
        lemma_excess_bits(half);
        let below = two_to(excess_bits(half));
        assert(two_to(excess_bits(n)) == 2 * below);
        lemma_div_denominator(n as int, 2, below as int);
        assert(n / (2 * below) == half / below);
    }
}

/// The larger number has no fewer excess bits.
pub proof fn lemma_excess_monotone(a: nat, b: nat)
    requires
        a <= b,
    ensures
        excess_bits(a) <= excess_bits(b),
    decreases b,
{
    if a >= 0x20_0000_0000_0000 {
        lemma_excess_monotone(a / 2, b / 2);
    }
}

/// Rounding moves a number to one of the two multiples that it lies between.
pub proof fn lemma_round_between(n: nat, unit: nat)
    requires
        unit > 0,
    ensures
        (n / unit) * unit <= round_to_even(n, unit) <= (n / unit + 1) * unit,
        (n / unit) * unit <= n,
{
    let q = n / unit;
    lemma_fundamental_div_mod(n as int, unit as int);
    assert(q * unit <= (q + 1) * unit) by (nonlinear_arith)
        requires
            unit > 0,
    ;
    assert(q * unit == unit * q) by (nonlinear_arith);
    assert(0 <= n % unit) by (nonlinear_arith)
        requires
            unit > 0,
    ;
}

/// Rounding to multiples of one unit keeps the order.
pub proof fn lemma_round_to_even_monotone(a: nat, b: nat, unit: nat)
    requires
        a <= b,
        unit > 0,
    ensures
        round_to_even(a, unit) <= round_to_even(b, unit),
{
    let qa = a / unit;
    let qb = b / unit;
    lemma_div_is_ordered(a as int, b as int, unit as int);
    lemma_round_between(a, unit);
    lemma_round_between(b, unit);
    if qa < qb {
        lemma_mul_inequality((qa + 1) as int, qb as int, unit as int);
    } else {
        lemma_fundamental_div_mod(a as int, unit as int);
        lemma_fundamental_div_mod(b as int, unit as int);
        assert(a % unit <= b % unit);
    }
}

/// Rounding to 53 significant bits keeps the order.
pub proof fn lemma_round53_monotone(a: nat, b: nat)
    requires
        a <= b,
    ensures
        round53(a) <= round53(b),
{
    let ra = excess_bits(a);
    let rb = excess_bits(b);
    let ua = two_to(ra);
    let ub = two_to(rb);
    lemma_excess_monotone(a, b);
    lemma_excess_bits(a);
    lemma_excess_bits(b);
    if ra == rb {
        lemma_round_to_even_monotone(a, b, ua);
    } else {
        lemma_round_between(a, ua);
        lemma_round_between(b, ub);
        lemma_two_to_values();
        lemma_two_to_adds(53, ra);
        lemma_two_to_adds(52, rb);
        lemma_two_to_grows(53 + ra, 52 + rb);
        lemma_mul_inequality((a / ua + 1) as int, 0x20_0000_0000_0000, ua as int);
        lemma_mul_inequality(0x10_0000_0000_0000, (b / ub) as int, ub as int);
    }
}

/// Rounding to 53 significant bits does not depend on the scale: twice the
/// number rounds to twice the result.
pub proof fn lemma_round53_doubles(n: nat)
    ensures
        round53(2 * n) == 2 * round53(n),
{
    reveal_with_fuel(two_to, 2);
    reveal_with_fuel(excess_bits, 2);
    if n < 0x20_0000_0000_0000 {
        assert(excess_bits(n) == 0);
        assert(round53(n) == n);
        if 2 * n < 0x20_0000_0000_0000 {
            assert(round53(2 * n) == 2 * n);
        } else {
            assert((2 * n) / 2 == n);
            assert(excess_bits(2 * n) == 1);
            assert(two_to(1) == 2);
            assert(round53(2 * n) == 2 * n);
        }
    } else {
        let r = excess_bits(n);
        let u = two_to(r);
        lemma_excess_bits(n);
        assert((2 * n) / 2 == n);
        assert(excess_bits(2 * n) == 1 + r);
        assert(two_to(1 + r) == 2 * u);
        lemma_div_multiples_vanish_quotient(2, n as int, u as int);
        lemma_truncate_middle(n as int, 2, u as int);
        let q = n / u;
        let rem = n % u;
        assert((2 * n) / (2 * u) == q);
        assert((2 * n) % (2 * u) == 2 * rem);
        assert((q + 1) * (2 * u) == 2 * ((q + 1) * u)) by (nonlinear_arith);
        assert(q * (2 * u) == 2 * (q * u)) by (nonlinear_arith);
    }
}

/// A number times a power of two rounds to the rounded number times that
/// power.
pub proof fn lemma_round53_scales(n: nat, k: nat)
    ensures
        round53(n * two_to(k)) == round53(n) * two_to(k),
    decreases k,
{
    if k == 0 {
        assert(n * 1 == n) by (nonlinear_arith);
        assert(round53(n) * 1 == round53(n)) by (nonlinear_arith);
    } else {
        let below = two_to((k - 1) as nat);
        lemma_round53_scales(n, (k - 1) as nat);
        lemma_round53_doubles(n * below);
        assert(n * (2 * below) == 2 * (n * below)) by (nonlinear_arith);
        assert(round53(n) * (2 * below) == 2 * (round53(n) * below)) by (nonlinear_arith);
    }
}

/// A larger threshold never asks for less coverage: of two thresholds
/// `s1 / 2^p1 <= s2 / 2^p2` the second asks at least as much of every
/// document.
pub proof fn lemma_required_monotone(doc_size: nat, s1: nat, p1: nat, s2: nat, p2: nat)
    requires
        s1 * two_to(p2) <= s2 * two_to(p1),
    ensures
        required_coverage(doc_size, s1, p1) <= required_coverage(doc_size, s2, p2),
{
    let size = round53(doc_size);
    let n1 = size * s1;
    let n2 = size * s2;
    let d1 = two_to(p1);
    let d2 = two_to(p2);
    lemma_two_to_grows(0, p1);
    lemma_two_to_grows(0, p2);
    assert(n1 * d2 <= n2 * d1) by (nonlinear_arith)
        requires
            n1 == size * s1,
            n2 == size * s2,
            s1 * d2 <= s2 * d1,
            size >= 0,
    ;
    lemma_round53_monotone(n1 * d2, n2 * d1);
    lemma_round53_scales(n1, p2);
    lemma_round53_scales(n2, p1);
    lemma_ceiling_monotone(round53(n1), d1, round53(n2), d2);
}

/// The share of a validation document that matches must cover for the
/// document to count as contaminated: a 64-bit float between 0 and 1, held
/// as the whole number `significand` and the number of binary `places` that
/// make up its value `significand / 2^places`.
#[derive(Debug, Clone, Copy)]
pub struct Threshold {
    significand: u64,
    places: u64,
}

impl View for Threshold {
    type V = (nat, nat);

    /// Significand and places.
    closed spec fn view(&self) -> (nat, nat) {
        (self.significand as nat, self.places as nat)
    }
}

/// `n` rounded to 53 significant bits.
fn round_to_53_bits(n: u128) -> (r: u128)
    requires
        n < 0x40_0000_0000_0000_0000_0000_0000_0000,
    ensures
        r == round53(n as nat),
        r <= 2 * n,
{
    let mut q: u128 = n;
    let mut unit: u128 = 1;
    let ghost mut excess: nat = 0;
    proof {
        reveal_with_fuel(two_to, 2);
        assert(n / 1 == n);
    }
    while q >= 0x20_0000_0000_0000
        invariant
            n < 0x40_0000_0000_0000_0000_0000_0000_0000,
            unit == two_to(excess),
            unit >= 1,
            q == n / unit,
            q * unit <= n,
            excess_bits(n as nat) == excess + excess_bits(q as nat),
            unit > 1 ==> q >= 0x10_0000_0000_0000,
        decreases q,
    {
        proof {
            assert(unit < 0x2_0000_0000_0000_0000) by (nonlinear_arith)
                requires
                    q * unit <= n,
                    q >= 0x20_0000_0000_0000,
                    n < 0x40_0000_0000_0000_0000_0000_0000_0000,
                    unit >= 1,
            ;
            lemma_div_denominator(n as int, unit as int, 2);
            assert(unit * 2 == 2 * unit);
            assert((q / 2) * (unit * 2) <= q * unit) by (nonlinear_arith)
                requires
                    q >= 0,
                    unit >= 0,
                    2 * (q / 2) <= q,
            ;
            reveal_with_fuel(two_to, 2);
            excess = excess + 1;
        }
        q = q / 2;
        unit = unit * 2;
    }
    proof {
        assert(unit < 0x4_0000_0000_0000_0000) by (nonlinear_arith)
            requires
                q * unit <= n,
                unit > 1 ==> q >= 0x10_0000_0000_0000,
                n < 0x40_0000_0000_0000_0000_0000_0000_0000,
                unit >= 1,
        ;
        assert(q * unit < 0x80_0000_0000_0000_0000_0000_0000_0000 && (q + 1) * unit
            < 0x80_0000_0000_0000_0000_0000_0000_0000) by (nonlinear_arith)
            requires
                q < 0x20_0000_0000_0000,
                unit < 0x4_0000_0000_0000_0000,
                q >= 0,
                unit >= 1,
        ;
        lemma_fundamental_div_mod(n as int, unit as int);
        assert(q * unit == unit * q) by (nonlinear_arith);
        assert(0 <= (n as int) % (unit as int) < unit) by (nonlinear_arith)
            requires
                unit > 0,
        ;
    }
    let rem = n - q * unit;
    let twice = 2 * rem;
    let up = twice > unit || (twice == unit && q % 2 == 1);
    proof {
        assert(excess_bits(q as nat) == 0);
        if unit > 1 {
            assert((q + 1) * unit <= 2 * (q * unit)) by (nonlinear_arith)
                requires
                    q >= 1,
                    unit >= 0,
            ;
        } else {
            assert(rem == 0);
        }
    }
    if up {
        (q + 1) * unit
    } else {
        q * unit
    }
}

impl Threshold {
    #[verifier::type_invariant]
    spec fn well_formed(self) -> bool {
        self.significand < 0x20_0000_0000_0000 && self.places <= 1074
    }

    /// The threshold that a 64-bit float between 0 and 1 stands for, read
    /// from the bits of the float: sign, eleven bits of exponent, 52 bits of
    /// mantissa. A float that is no number between 0 and 1 is refused.
    pub fn from_f64_bits(bits: u64) -> (r: Result<Threshold, PipelineError>)
        ensures
            r is Ok <==> f64_in_unit_interval(bits),
            r matches Ok(t) ==> t@ == (f64_significand(bits), f64_places(bits)),
            r matches Err(e) ==> e == PipelineError::Config,
    {
        let magnitude = bits % 0x8000_0000_0000_0000;
        let exponent = magnitude / 0x10_0000_0000_0000;
        let mantissa = magnitude % 0x10_0000_0000_0000;
        if magnitude != 0 && (bits >= 0x8000_0000_0000_0000 || exponent > 1023 || (exponent == 1023 && mantissa != 0)) {
            return Err(PipelineError::Config);
        }
        if exponent == 0 {
            Ok(Threshold { significand: mantissa, places: 1074 })
        } else {
            Ok(Threshold { significand: 0x10_0000_0000_0000 + mantissa, places: 1075 - exponent })
        }
    }

    /// The whole number that the threshold is a binary fraction of.
    pub fn significand(&self) -> (r: u64)
        ensures
            r == self@.0,
    {
        self.significand
    }

    /// Number of binary places of the threshold.
    pub fn places(&self) -> (r: u64)
        ensures
            r == self@.1,
    {
        self.places
    }

    /// Number of bytes of a document of `doc_size` bytes that must be covered:
    /// the size times the threshold, as a 64-bit float, rounded up.
    pub fn required_coverage(&self, doc_size: usize) -> (r: usize)
        ensures
            r == required_coverage(doc_size as nat, self@.0, self@.1),
    {
        proof {
            use_type_invariant(self);
        }
        let size = round_to_53_bits(doc_size as u128);
        proof {
            assert(size * self.significand < 0x40_0000_0000_0000_0000_0000_0000_0000) by (nonlinear_arith)
                requires
                    0 <= size <= 0x1_ffff_ffff_ffff_fffe,
                    0 <= self.significand < 0x20_0000_0000_0000,
            ;
        }
        let product = round_to_53_bits(size * self.significand as u128);
        let ghost places = self.places as nat;
        proof {
            lemma_two_to_values();
        }
        let whole: u128 = if self.places >= 120 {
            proof {
                lemma_two_to_grows(120, places);
                lemma_ceiling_small(product as nat, two_to(places));
            }
            if product == 0 {
                0
            } else {
                1
            }
        } else {
            let mut denominator: u128 = 1;
            let mut k: u64 = 0;
            while k < self.places
                invariant
                    k <= self.places < 120,
                    denominator == two_to(k as nat),
                decreases self.places - k,
            {
                proof {
                    lemma_two_to_grows((k + 1) as nat, 120);
                    lemma_two_to_values();
                }
                denominator = denominator * 2;
                k += 1;
            }
            proof {
                lemma_two_to_grows(0, places);
            }
            let quotient = product / denominator;
            let remainder = product % denominator;
            proof {
                let a = product as nat;
                let d = denominator as nat;
                let c = ceiling(a, d);
                lemma_rounded_up(a, d);
                assert(product == denominator * quotient + remainder && 0 <= remainder < denominator) by (nonlinear_arith)
                    requires
                        denominator > 0,
                        quotient == product / denominator,
                        remainder == product % denominator,
                ;
                if remainder == 0 {
                    assert(quotient * d >= a) by (nonlinear_arith)
                        requires
                            a == d * quotient,
                    ;
                    lemma_rounded_up_least(a, d, quotient as int);
                    assert(c >= quotient) by (nonlinear_arith)
                        requires
                            c * d >= a,
                            a == d * quotient,
                            d > 0,
                    ;
                } else {
                    assert((quotient + 1) * d >= a) by (nonlinear_arith)
                        requires
                            a == d * quotient + remainder,
                            remainder < d,
                    ;
                    lemma_rounded_up_least(a, d, quotient + 1);
                    assert(c > quotient) by (nonlinear_arith)
                        requires
                            c * d >= a,
                            a == d * quotient + remainder,
                            remainder > 0,
                            d > 0,
                    ;
                }
            }
            if remainder == 0 {
                quotient
            } else {
                quotient + 1
            }
        };
        if whole > usize::MAX as u128 {
            usize::MAX
        } else {
            whole as usize
        }
    }
}

} // verus!
