//! Exact rational numbers of arbitrary size.
//!
//! A [`Rational`] stores its numerator and denominator as plain two's
//! complement little-endian digit vectors; the arithmetic itself is carried out
//! by `num_rational::BigRational`, whose results are stated exactly over the
//! mathematical value of each operand.
use num_bigint::BigInt;
use num_rational::BigRational;
use num_integer::Integer;
use num_traits::Signed;
use crate::format::decimal;
use vstd::arithmetic::div_mod::{lemma_fundamental_div_mod, lemma_mod_multiples_basic};
use vstd::arithmetic::power::pow;
use vstd::prelude::*;

verus! {

/// Unsigned value of little-endian base-256 digits.
pub open spec fn unsigned_le(digits: Seq<u8>) -> nat
    decreases digits.len(),
{
    if digits.len() == 0 {
        0
    } else {
        digits[0] as nat + 256 * unsigned_le(digits.subrange(1, digits.len() as int))
    }
}

/// Two's complement value of little-endian base-256 digits.
pub open spec fn signed_le(digits: Seq<u8>) -> int {
    if digits.len() > 0 && digits.last() >= 128 {
        unsigned_le(digits) - pow(256, digits.len())
    } else {
        unsigned_le(digits) as int
    }
}

/// Greatest common divisor of two naturals (`gcd(a, 0) == a`).
pub open spec fn gcd(a: nat, b: nat) -> nat
    decreases b,
{
    if b == 0 {
        a
    } else {
        gcd(b, a % b)
    }
}

/// Absolute value of an integer.
pub open spec fn abs_int(a: int) -> nat {
    if a < 0 {
        (-a) as nat
    } else {
        a as nat
    }
}

/// Absolute value of a real.
pub open spec fn abs_real(a: real) -> real {
    if a < 0real {
        -a
    } else {
        a
    }
}

/// An exact rational number in lowest terms with a positive denominator.
#[derive(Debug, PartialEq, Eq, Hash)]
pub struct Rational {
    numer: Vec<u8>,
    denom: Vec<u8>,
}

impl Rational {
    /// The numerator as a mathematical integer.
    pub closed spec fn numerator(&self) -> int {
        signed_le(self.numer@)
    }

    /// The denominator as a mathematical integer.
    pub closed spec fn denominator(&self) -> int {
        signed_le(self.denom@)
    }

    /// Whether the stored fraction is in lowest terms.
    pub open spec fn lowest(&self) -> bool {
        gcd(abs_int(self.numerator()), abs_int(self.denominator())) == 1
    }

    #[verifier::type_invariant]
    closed spec fn positive_denominator(&self) -> bool {
        &&& self.denominator() > 0
        &&& self.lowest()
    }
}

impl View for Rational {
    type V = real;

    /// The exact mathematical value.
    closed spec fn view(&self) -> real {
        self.numerator() as real / self.denominator() as real
    }
}

impl Clone for Rational {
    fn clone(&self) -> (result: Self)
        ensures
            result.numerator() == self.numerator(),
            result.denominator() == self.denominator(),
            result@ == self@,
    {
        proof {
            use_type_invariant(self);
        }
        let numer = self.numer.clone();
        let denom = self.denom.clone();
        proof {
            assert(numer@ =~= self.numer@);
            assert(denom@ =~= self.denom@);
        }
        Rational { numer, denom }
    }
}

/// Every natural number is coprime to one.
proof fn lemma_gcd_with_one(a: nat)
    ensures
        gcd(a, 1) == 1,
{
    reveal_with_fuel(gcd, 2);
    assert(a % 1 == 0);
}

/// `unsigned_le([d]) == d`.
proof fn lemma_single_digit(d: u8)
    ensures
        unsigned_le(seq![d]) == d as nat,
        d < 128 ==> signed_le(seq![d]) == d as int,
{
    reveal_with_fuel(unsigned_le, 2);
    assert(seq![d].subrange(1, 1) =~= Seq::<u8>::empty());
}

impl Rational {
    /// Exact zero.
    pub fn zero() -> (result: Self)
        ensures
            result@ == 0real,
            result.numerator() == 0,
            result.denominator() == 1,
    {
        proof {
            lemma_single_digit(0);
            lemma_single_digit(1);
        }
        let numer = vec![0u8];
        let denom = vec![1u8];
        proof {
            assert(numer@ =~= seq![0u8]);
            assert(denom@ =~= seq![1u8]);
            lemma_gcd_with_one(0);
        }
        let result = Rational { numer, denom };
        proof {
            assert(0int as real / 1int as real == 0real);
        }
        result
    }

    /// Exact one.
    pub fn one() -> (result: Self)
        ensures
            result@ == 1real,
            result.numerator() == 1,
            result.denominator() == 1,
    {
        proof {
            lemma_single_digit(1);
        }
        let numer = vec![1u8];
        let denom = vec![1u8];
        proof {
            assert(numer@ =~= seq![1u8]);
            assert(denom@ =~= seq![1u8]);
            lemma_gcd_with_one(1);
        }
        let result = Rational { numer, denom };
        proof {
            assert(1int as real / 1int as real == 1real);
        }
        result
    }

    /// The exact value of an integer (`BigRational::from_integer`).
    #[verifier::external_body]
    pub fn from_integer(value: i64) -> (result: Self)
        ensures
            result.lowest(),
            result@ == value as real,
            result.numerator() == value as int,
            result.denominator() == 1,
    {
        let r = BigRational::from_integer(BigInt::from(value));
        Rational { numer: r.numer().to_signed_bytes_le(), denom: r.denom().to_signed_bytes_le() }
    }

    /// The exact fraction `numer / denom` in lowest terms (`BigRational::new`).
    #[verifier::external_body]
    pub fn new(numer: i64, denom: i64) -> (result: Self)
        requires
            denom != 0,
        ensures
            result.lowest(),
            result@ == numer as real / denom as real,
    {
        let r = BigRational::new(BigInt::from(numer), BigInt::from(denom));
        Rational { numer: r.numer().to_signed_bytes_le(), denom: r.denom().to_signed_bytes_le() }
    }

    /// Exact sum (`BigRational + BigRational`).
    #[verifier::external_body]
    pub fn add(&self, other: &Self) -> (result: Self)
        ensures
            result.lowest(),
            result@ == self@ + other@,
    {
        let x = BigRational::new_raw(BigInt::from_signed_bytes_le(&self.numer), BigInt::from_signed_bytes_le(&self.denom));
        let y = BigRational::new_raw(BigInt::from_signed_bytes_le(&other.numer), BigInt::from_signed_bytes_le(&other.denom));
        let z = x + y;
        Rational { numer: z.numer().to_signed_bytes_le(), denom: z.denom().to_signed_bytes_le() }
    }

    /// Exact difference (`BigRational - BigRational`).
    #[verifier::external_body]
    pub fn sub(&self, other: &Self) -> (result: Self)
        ensures
            result.lowest(),
            result@ == self@ - other@,
    {
        let x = BigRational::new_raw(BigInt::from_signed_bytes_le(&self.numer), BigInt::from_signed_bytes_le(&self.denom));
        let y = BigRational::new_raw(BigInt::from_signed_bytes_le(&other.numer), BigInt::from_signed_bytes_le(&other.denom));
        let z = x - y;
        Rational { numer: z.numer().to_signed_bytes_le(), denom: z.denom().to_signed_bytes_le() }
    }

    /// Exact product (`BigRational * BigRational`).
    #[verifier::external_body]
    pub fn mul(&self, other: &Self) -> (result: Self)
        ensures
            result.lowest(),
            result@ == self@ * other@,
    {
        let x = BigRational::new_raw(BigInt::from_signed_bytes_le(&self.numer), BigInt::from_signed_bytes_le(&self.denom));
        let y = BigRational::new_raw(BigInt::from_signed_bytes_le(&other.numer), BigInt::from_signed_bytes_le(&other.denom));
        let z = x * y;
        Rational { numer: z.numer().to_signed_bytes_le(), denom: z.denom().to_signed_bytes_le() }
    }

    /// Exact quotient (`BigRational / BigRational`), which panics on a zero divisor.
    #[verifier::external_body]
    pub fn div(&self, other: &Self) -> (result: Self)
        requires
            other@ != 0real,
        ensures
            result.lowest(),
            result@ == self@ / other@,
    {
        let x = BigRational::new_raw(BigInt::from_signed_bytes_le(&self.numer), BigInt::from_signed_bytes_le(&self.denom));
        let y = BigRational::new_raw(BigInt::from_signed_bytes_le(&other.numer), BigInt::from_signed_bytes_le(&other.denom));
        let z = x / y;
        Rational { numer: z.numer().to_signed_bytes_le(), denom: z.denom().to_signed_bytes_le() }
    }

    /// Exact negation (`-BigRational`).
    #[verifier::external_body]
    pub fn neg(&self) -> (result: Self)
        ensures
            result.lowest(),
            result@ == -self@,
    {
        let x = BigRational::new_raw(BigInt::from_signed_bytes_le(&self.numer), BigInt::from_signed_bytes_le(&self.denom));
        let z = -x;
        Rational { numer: z.numer().to_signed_bytes_le(), denom: z.denom().to_signed_bytes_le() }
    }

    /// Exact absolute value (`Signed::abs`).
    #[verifier::external_body]
    pub fn abs(&self) -> (result: Self)
        ensures
            result.lowest(),
            result@ == abs_real(self@),
    {
        let x = BigRational::new_raw(BigInt::from_signed_bytes_le(&self.numer), BigInt::from_signed_bytes_le(&self.denom));
        let z = x.abs();
        Rational { numer: z.numer().to_signed_bytes_le(), denom: z.denom().to_signed_bytes_le() }
    }

    /// Exact value equality (`BigRational == BigRational`).
    #[verifier::external_body]
    pub fn eq(&self, other: &Self) -> (result: bool)
        ensures
            result == (self@ == other@),
    {
        let x = BigRational::new_raw(BigInt::from_signed_bytes_le(&self.numer), BigInt::from_signed_bytes_le(&self.denom));
        let y = BigRational::new_raw(BigInt::from_signed_bytes_le(&other.numer), BigInt::from_signed_bytes_le(&other.denom));
        x == y
    }

    /// Exact strict order (`BigRational < BigRational`).
    #[verifier::external_body]
    pub fn lt(&self, other: &Self) -> (result: bool)
        ensures
            result == (self@ < other@),
    {
        let x = BigRational::new_raw(BigInt::from_signed_bytes_le(&self.numer), BigInt::from_signed_bytes_le(&self.denom));
        let y = BigRational::new_raw(BigInt::from_signed_bytes_le(&other.numer), BigInt::from_signed_bytes_le(&other.denom));
        x < y
    }

    /// Exact non-strict order.
    pub fn le(&self, other: &Self) -> (result: bool)
        ensures
            result == (self@ <= other@),
    {
        !other.lt(self)
    }

    /// Whether the value is exactly zero.
    pub fn is_zero(&self) -> (result: bool)
        ensures
            result == (self@ == 0real),
    {
        self.eq(&Rational::zero())
    }

    /// Whether the value is below zero.
    pub fn is_negative(&self) -> (result: bool)
        ensures
            result == (self@ < 0real),
    {
        self.lt(&Rational::zero())
    }

    /// Whether the value is above zero.
    pub fn is_positive(&self) -> (result: bool)
        ensures
            result == (self@ > 0real),
    {
        Rational::zero().lt(self)
    }
}


/// A positive `gcd` when either argument is positive.
pub proof fn lemma_gcd_positive(a: nat, b: nat)
    requires
        a > 0 || b > 0,
    ensures
        gcd(a, b) > 0,
    decreases b,
{
    if b > 0 {
        if a % b > 0 {
            lemma_gcd_positive(b, a % b);
        } else {
            assert(gcd(b, a % b) == b);
        }
    }
}

/// An integer as a real.
pub open spec fn int_value(k: int) -> real {
    k as real
}

/// `a` is `q * c` for the quotient `q`, so `c` divides it.
pub proof fn lemma_multiple_divides(a: int, q: int, c: int)
    requires
        c > 0,
        a == q * c,
    ensures
        a % c == 0,
{
    lemma_mod_multiples_basic(q, c);
}

/// A multiple of a multiple of `c` is a multiple of `c`.
pub proof fn lemma_divides_transitive(a: int, b: int, c: int)
    requires
        b > 0,
        c > 0,
        a % b == 0,
        b % c == 0,
    ensures
        a % c == 0,
{
    lemma_fundamental_div_mod(a, b);
    lemma_fundamental_div_mod(b, c);
    let q = (b / c) * (a / b);
    assert(a == q * c) by (nonlinear_arith)
        requires
            a == b * (a / b) + a % b,
            a % b == 0,
            b == c * (b / c) + b % c,
            b % c == 0,
            q == (b / c) * (a / b),
    ;
    lemma_multiple_divides(a, q, c);
}

/// A positive `gcd` divides both of its arguments.
pub proof fn lemma_gcd_divides(a: nat, b: nat)
    requires
        gcd(a, b) > 0,
    ensures
        a as int % gcd(a, b) as int == 0,
        b as int % gcd(a, b) as int == 0,
    decreases b,
{
    if b == 0 {
        lemma_multiple_divides(a as int, 1, a as int);
        lemma_multiple_divides(0, 0, a as int);
    } else {
        let r = a % b;
        lemma_gcd_divides(b, r);
        let g = gcd(a, b) as int;
        assert(g == gcd(b, r) as int);
        lemma_fundamental_div_mod(a as int, b as int);
        lemma_fundamental_div_mod(b as int, g);
        lemma_fundamental_div_mod(r as int, g);
        let q = (b as int / g) * (a as int / b as int) + r as int / g;
        assert(a as int == q * g) by (nonlinear_arith)
            requires
                a as int == b as int * (a as int / b as int) + r as int,
                b as int == g * (b as int / g) + b as int % g,
                b as int % g == 0,
                r as int == g * (r as int / g) + r as int % g,
                r as int % g == 0,
                q == (b as int / g) * (a as int / b as int) + r as int / g,
        ;
        lemma_multiple_divides(a as int, q, g);
    }
}

/// Every positive common divisor of two naturals divides their `gcd`.
pub proof fn lemma_gcd_greatest(a: nat, b: nat, c: int)
    requires
        c > 0,
        a as int % c == 0,
        b as int % c == 0,
    ensures
        gcd(a, b) as int % c == 0,
    decreases b,
{
    if b > 0 {
        let r = a % b;
        lemma_fundamental_div_mod(a as int, b as int);
        lemma_fundamental_div_mod(a as int, c);
        lemma_fundamental_div_mod(b as int, c);
        let q = a as int / c - (b as int / c) * (a as int / b as int);
        assert(r as int == q * c) by (nonlinear_arith)
            requires
                a as int == b as int * (a as int / b as int) + r as int,
                a as int == c * (a as int / c) + a as int % c,
                a as int % c == 0,
                b as int == c * (b as int / c) + b as int % c,
                b as int % c == 0,
                q == a as int / c - (b as int / c) * (a as int / b as int),
        ;
        lemma_multiple_divides(r as int, q, c);
        lemma_gcd_greatest(b, r, c);
    }
}

/// A fraction in lowest terms with a positive denominator whose value is
/// the integer `k` is `k` over one.
proof fn lemma_whole_fraction(n: int, d: int, k: int)
    requires
        d > 0,
        gcd(abs_int(n), abs_int(d)) == 1,
        n as real / d as real == k as real,
    ensures
        d == 1,
        n == k,
{
    assert(n == k * d) by (nonlinear_arith)
        requires
            d > 0,
            n as real / d as real == k as real,
    ;
    assert(abs_int(n) as int == abs_int(k) as int * d) by (nonlinear_arith)
        requires
            n == k * d,
            d > 0,
            abs_int(n) as int == (if n < 0 { -n } else { n }),
            abs_int(k) as int == (if k < 0 { -k } else { k }),
    ;
    lemma_multiple_divides(abs_int(n) as int, abs_int(k) as int, d);
    reveal_with_fuel(gcd, 2);
    assert(gcd(abs_int(n), abs_int(d)) == gcd(abs_int(d), abs_int(n) % abs_int(d)));
    assert(abs_int(n) % abs_int(d) == 0);
    assert(gcd(abs_int(d), 0) == abs_int(d));
}

impl Rational {
    /// The value is the numerator over the positive denominator, and a value
    /// equal to an integer is stored as that integer over one.
    pub fn check_fraction(&self)
        ensures
            self.denominator() > 0,
            self@ == self.numerator() as real / self.denominator() as real,
            forall|k: int| #[trigger] int_value(k) == self@ ==> self.denominator() == 1 && self.numerator() == k,
    {
        proof {
            use_type_invariant(self);
            assert forall|k: int| #[trigger] int_value(k) == self@ implies self.denominator() == 1 && self.numerator() == k by {
                lemma_whole_fraction(self.numerator(), self.denominator(), k);
            }
        }
    }
}

impl Rational {
    /// The denominator is positive, and the value is zero, negative or
    /// positive exactly when the numerator is.
    pub fn check_sign(&self)
        ensures
            self.denominator() > 0,
            self@ == 0real <==> self.numerator() == 0,
            self@ > 0real <==> self.numerator() > 0,
            self@ < 0real <==> self.numerator() < 0,
    {
        proof {
            use_type_invariant(self);
            let n = self.numerator() as real;
            let d = self.denominator() as real;
            assert(d > 0real);
            assert(n / d == 0real <==> n == 0real) by (nonlinear_arith)
                requires
                    d > 0real,
            ;
            assert(n / d > 0real <==> n > 0real) by (nonlinear_arith)
                requires
                    d > 0real,
            ;
            assert(n / d < 0real <==> n < 0real) by (nonlinear_arith)
                requires
                    d > 0real,
            ;
        }
    }

    /// The numerator, as an integer.
    pub fn numerator_value(&self) -> (result: Rational)
        ensures
            result.numerator() == self.numerator(),
            result.denominator() == 1,
            result@ == self.numerator() as real,
    {
        proof {
            lemma_single_digit(1);
        }
        let numer = self.numer.clone();
        let denom = vec![1u8];
        proof {
            assert(numer@ =~= self.numer@);
            assert(denom@ =~= seq![1u8]);
            lemma_gcd_with_one(abs_int(self.numerator()));
        }
        let result = Rational { numer, denom };
        proof {
            assert(self.numerator() as real / 1int as real == self.numerator() as real);
        }
        result
    }

    /// The denominator, as an integer.
    pub fn denominator_value(&self) -> (result: Rational)
        ensures
            result.numerator() == self.denominator(),
            result.denominator() == 1,
            result@ == self.denominator() as real,
            result.numerator() > 0,
    {
        proof {
            use_type_invariant(self);
            lemma_single_digit(1);
        }
        let numer = self.denom.clone();
        let denom = vec![1u8];
        proof {
            assert(numer@ =~= self.denom@);
            assert(denom@ =~= seq![1u8]);
            lemma_gcd_with_one(abs_int(self.denominator()));
        }
        let result = Rational { numer, denom };
        proof {
            assert(self.denominator() as real / 1int as real == self.denominator() as real);
        }
        result
    }
}

/// The text of a fraction: the numerator alone when the denominator is one,
/// otherwise numerator, `/` and denominator, each in decimal.
pub open spec fn fraction_text(numerator: int, denominator: int) -> Seq<char> {
    if denominator == 1 {
        decimal(numerator)
    } else {
        decimal(numerator) + "/"@ + decimal(denominator)
    }
}

impl Rational {
    /// The text of the stored numerator and denominator.
    pub open spec fn text_spec(&self) -> Seq<char> {
        fraction_text(self.numerator(), self.denominator())
    }

    /// Renders the value (`Display` for `BigRational`): `n` for an integer,
    /// otherwise `n/d` over the stored positive denominator.
    #[verifier::external_body]
    pub fn to_text(&self) -> (result: String)
        ensures
            result@ == self.text_spec(),
    {
        let x = BigRational::new_raw(BigInt::from_signed_bytes_le(&self.numer), BigInt::from_signed_bytes_le(&self.denom));
        format!("{}", x)
    }
}

/// Whether `m` is a positive multiple of both `a` and `b`.
pub open spec fn common_multiple(m: int, a: int, b: int) -> bool {
    m > 0 && m % a == 0 && m % b == 0
}

/// The least common multiple of two positive integers (`Integer::lcm` on
/// `BigInt`): a positive common multiple no larger than any other.
#[verifier::external_body]
pub fn integer_lcm(a: &Rational, b: &Rational) -> (result: Rational)
    requires
        a.denominator() == 1,
        b.denominator() == 1,
        a.numerator() > 0,
        b.numerator() > 0,
    ensures
        result.denominator() == 1,
        result.numerator() > 0,
        common_multiple(result.numerator(), a.numerator(), b.numerator()),
        forall|m: int| #[trigger] common_multiple(m, a.numerator(), b.numerator()) ==> result.numerator() <= m,
{
    let x = BigInt::from_signed_bytes_le(&a.numer);
    let y = BigInt::from_signed_bytes_le(&b.numer);
    Rational { numer: x.lcm(&y).to_signed_bytes_le(), denom: vec![1u8] }
}

/// The greatest common divisor of the magnitudes of two numerators
/// (`Integer::gcd` on `BigInt`).
#[verifier::external_body]
pub fn numerator_gcd(a: &Rational, b: &Rational) -> (result: Rational)
    ensures
        result.denominator() == 1,
        result.numerator() == gcd(abs_int(a.numerator()), abs_int(b.numerator())) as int,
{
    let x = BigInt::from_signed_bytes_le(&a.numer);
    let y = BigInt::from_signed_bytes_le(&b.numer);
    Rational { numer: x.gcd(&y).to_signed_bytes_le(), denom: vec![1u8] }
}

} // verus!
