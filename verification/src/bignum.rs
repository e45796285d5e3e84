use vstd::prelude::*;
use vstd::arithmetic::power::pow;
use num_bigint::BigInt;
use num_integer::Integer;
use num_traits::ToPrimitive;

verus! {

#[verifier::external_type_specification]
#[verifier::external_body]
pub struct ExBigInt(BigInt);

/// The integer a `BigInt` holds.
pub uninterp spec fn big_value(b: BigInt) -> int;

/// `d` divides `n` over the integers.
pub open spec fn divides(d: int, n: int) -> bool {
    exists|k: int| n == #[trigger] (d * k)
}

/// The big-endian base-256 digits of a natural number, most significant
/// first, with no leading zero.
pub open spec fn be_digits(m: nat) -> Seq<u8>
    decreases m,
{
    if m == 0 {
        Seq::empty()
    } else {
        be_digits(m / 256).push((m % 256) as u8)
    }
}

/// The shortest big-endian byte rendering of a non-negative integer: one
/// zero byte for zero, otherwise its base-256 digits.
pub open spec fn be_bytes_of(m: int) -> Seq<u8> {
    if m <= 0 {
        seq![0u8]
    } else {
        be_digits(m as nat)
    }
}

/// Relies on num_bigint::BigInt::from: the converted integer keeps its value.
#[verifier::external_body]
pub fn big_from_u64(v: u64) -> (r: BigInt)
    ensures
        big_value(r) == v as int,
{
    BigInt::from(v)
}

/// Relies on num_bigint::BigInt::clone: a clone holds the same value.
#[verifier::external_body]
pub fn big_clone(a: &BigInt) -> (r: BigInt)
    ensures
        big_value(r) == big_value(*a),
{
    a.clone()
}

/// Relies on the addition of num_bigint.
#[verifier::external_body]
pub fn big_add(a: &BigInt, b: &BigInt) -> (r: BigInt)
    ensures
        big_value(r) == big_value(*a) + big_value(*b),
{
    a + b
}

/// Relies on the subtraction of num_bigint.
#[verifier::external_body]
pub fn big_sub(a: &BigInt, b: &BigInt) -> (r: BigInt)
    ensures
        big_value(r) == big_value(*a) - big_value(*b),
{
    a - b
}

/// Relies on the multiplication of num_bigint.
#[verifier::external_body]
pub fn big_mul(a: &BigInt, b: &BigInt) -> (r: BigInt)
    ensures
        big_value(r) == big_value(*a) * big_value(*b),
{
    a * b
}

/// Relies on the remainder of num_bigint, which truncates towards zero, so
/// the result carries the sign of the dividend.
#[verifier::external_body]
pub fn big_rem(a: &BigInt, b: &BigInt) -> (r: BigInt)
    requires
        big_value(*b) >= 1,
    ensures
        big_value(r) == if big_value(*a) >= 0 {
            big_value(*a) % big_value(*b)
        } else {
            -((-big_value(*a)) % big_value(*b))
        },
{
    a % b
}

/// Relies on num_bigint's equality test.
#[verifier::external_body]
pub fn big_eq(a: &BigInt, b: &BigInt) -> (r: bool)
    ensures
        r == (big_value(*a) == big_value(*b)),
{
    a == b
}

/// Relies on num_integer::Roots::sqrt for BigInt: the floor of the square
/// root of a non-negative argument.
#[verifier::external_body]
pub fn big_sqrt(a: &BigInt) -> (r: BigInt)
    requires
        big_value(*a) >= 0,
    ensures
        big_value(r) >= 0,
        big_value(r) * big_value(r) <= big_value(*a),
        big_value(*a) < (big_value(r) + 1) * (big_value(r) + 1),
{
    a.sqrt()
}

/// Relies on num_bigint::BigInt::modpow: modular exponentiation for a
/// non-negative base and exponent and a positive modulus.
#[verifier::external_body]
pub fn big_modpow(base: &BigInt, exp: &BigInt, modulus: &BigInt) -> (r: BigInt)
    requires
        big_value(*base) >= 0,
        big_value(*exp) >= 0,
        big_value(*modulus) >= 1,
    ensures
        big_value(r) == pow(big_value(*base), big_value(*exp) as nat) % big_value(*modulus),
{
    base.modpow(exp, modulus)
}

/// Relies on num_integer::Integer::extended_gcd for BigInt: for positive
/// arguments the returned gcd is positive, divides both, and comes with
/// Bezout coefficients.
#[verifier::external_body]
pub fn big_extended_gcd(a: &BigInt, b: &BigInt) -> (r: (BigInt, BigInt, BigInt))
    requires
        big_value(*a) >= 1,
        big_value(*b) >= 1,
    ensures
        big_value(r.0) >= 1,
        divides(big_value(r.0), big_value(*a)),
        divides(big_value(r.0), big_value(*b)),
        big_value(*a) * big_value(r.1) + big_value(*b) * big_value(r.2) == big_value(r.0),
{
    let egc = a.extended_gcd(b);
    (egc.gcd, egc.x, egc.y)
}

/// Relies on num_traits::ToPrimitive::to_u64 for BigInt: `Some` exactly
/// when the value is a machine word, which it then equals.
#[verifier::external_body]
pub fn big_to_u64(a: &BigInt) -> (r: Option<u64>)
    ensures
        r is Some <==> 0 <= big_value(*a) <= u64::MAX,
        r matches Some(v) ==> big_value(*a) == v as int,
{
    a.to_u64()
}

/// Relies on num_bigint::BigInt::to_bytes_be: the magnitude as its shortest
/// big-endian byte string, a single zero byte for zero.
#[verifier::external_body]
pub fn big_to_bytes_be(m: &BigInt) -> (r: Vec<u8>)
    requires
        big_value(*m) >= 0,
    ensures
        r@ == be_bytes_of(big_value(*m)),
{
    m.to_bytes_be().1
}

} // verus!
