// Every wrapper below converts its byte arguments into gmp integers through
// mpz_import with the most significant byte first, and converts results back
// through mpz_export, whose shortest big-endian form `be_val` models exactly.

use vstd::prelude::*;

verus! {

use crate::encoding::be_val;
use crate::encoding::canonical;

/// A nonzero residue has a multiplicative inverse modulo `m`.
pub open spec fn has_inverse(a: nat, m: nat) -> bool {
    exists|v: nat| v < m && #[trigger] ((a * v) % m) == 1
}

/// The multiplicative inverse of `a` modulo `m`, where one exists.
pub open spec fn inv_mod(a: nat, m: nat) -> nat {
    choose|v: nat| v < m && #[trigger] ((a * v) % m) == 1
}

/// A multiplicative inverse modulo m is unique among residues below m.
pub proof fn lemma_inverse_unique(a: nat, m: nat, v1: nat, v2: nat)
    requires
        m >= 2,
        v1 < m,
        v2 < m,
        (a * v1) % m == 1,
        (a * v2) % m == 1,
    ensures
        v1 == v2,
{
    let mi = m as int;
    let ai = a as int;
    let x1 = v1 as int;
    let x2 = v2 as int;
    assert((x1 * (ai * x2)) % mi == (x1 * ((ai * x2) % mi)) % mi) by {
        vstd::arithmetic::div_mod::lemma_mul_mod_noop_right(x1, ai * x2, mi);
    }
    assert((x1 * (ai * x2)) % mi == ((x1 * ai) % mi * x2) % mi) by {
        vstd::arithmetic::mul::lemma_mul_is_associative(x1, ai, x2);
        vstd::arithmetic::div_mod::lemma_mul_mod_noop_left(x1 * ai, x2, mi);
    }
    assert((x1 * ai) % mi == 1) by {
        vstd::arithmetic::mul::lemma_mul_is_commutative(x1, ai);
    }
    assert((x1 * 1) % mi == x1) by {
        vstd::arithmetic::div_mod::lemma_small_mod(v1, m);
    }
    assert((x1 * ((ai * x2) % mi)) % mi == x1 % mi);
    assert((1 * x2) % mi == x2) by {
        vstd::arithmetic::div_mod::lemma_small_mod(v2, m);
    }
    assert(x1 % mi == x1) by {
        vstd::arithmetic::div_mod::lemma_small_mod(v1, m);
    }
}

/// The state of the external random generator; opaque to the verifier.
#[verifier::external_type_specification]
#[verifier::external_body]
pub struct ExRandState(gmp::rand::RandState);

/// Relies on rand's OsRng: fills a fresh buffer with entropy from the
/// operating system. Nothing is claimed of the bytes beyond their count.
#[verifier::external_body]
pub(crate) fn entropy_seed() -> (r: Vec<u8>)
    ensures
        r@.len() == 32,
{
    let mut buf = vec![0u8; 32];
    rand::RngCore::fill_bytes(&mut rand::rngs::OsRng, buf.as_mut_slice());
    buf
}

/// Relies on gmp's randinit_mt and randseed: a Mersenne-Twister generator
/// seeded with the given bytes, read as a big-endian integer.
#[verifier::external_body]
pub(crate) fn seeded_generator(seed: &Vec<u8>) -> gmp::rand::RandState {
    let mut state = gmp::rand::RandState::new_mt();
    state.seed(gmp::mpz::Mpz::from(seed.as_slice()));
    state
}

/// Relies on gmp's urandomm: a uniform random integer in the range
/// 0 to bound-1, inclusive.
#[verifier::external_body]
pub(crate) fn random_below(state: &mut gmp::rand::RandState, bound: &Vec<u8>) -> (r: Vec<u8>)
    requires
        be_val(bound@) >= 1,
    ensures
        be_val(r@) < be_val(bound@),
{
    let z = state.urandom(&gmp::mpz::Mpz::from(bound.as_slice()));
    Vec::<u8>::from(&z)
}

/// Relies on gmp's urandomb: a uniform random integer in the range
/// 0 to 2^bits - 1, inclusive.
#[verifier::external_body]
pub(crate) fn random_bits(state: &mut gmp::rand::RandState, bits: u64) -> (r: Vec<u8>)
    ensures
        be_val(r@) < crate::encoding::pow2(bits as nat),
{
    let z = state.urandom_2exp(bits);
    Vec::<u8>::from(&z)
}

/// Relies on gmp's nextprime: a probable prime strictly greater than the
/// argument. The primality test is probabilistic, so only the bound is stated.
#[verifier::external_body]
pub(crate) fn next_prime_after(v: &Vec<u8>) -> (r: Vec<u8>)
    ensures
        be_val(r@) > be_val(v@),
{
    let z = gmp::mpz::Mpz::from(v.as_slice()).nextprime();
    Vec::<u8>::from(&z)
}

/// Relies on gmp addition (mpz_add) of two non-negative integers.
#[verifier::external_body]
pub(crate) fn big_add(a: &Vec<u8>, b: &Vec<u8>) -> (r: Vec<u8>)
    ensures
        be_val(r@) == be_val(a@) + be_val(b@),
{
    let z = gmp::mpz::Mpz::from(a.as_slice()) + gmp::mpz::Mpz::from(b.as_slice());
    Vec::<u8>::from(&z)
}

/// Relies on gmp subtraction (mpz_sub); the precondition keeps the
/// difference non-negative, which the byte export requires.
#[verifier::external_body]
pub(crate) fn big_sub(a: &Vec<u8>, b: &Vec<u8>) -> (r: Vec<u8>)
    requires
        be_val(b@) <= be_val(a@),
    ensures
        be_val(r@) == be_val(a@) - be_val(b@),
{
    let z = gmp::mpz::Mpz::from(a.as_slice()) - gmp::mpz::Mpz::from(b.as_slice());
    Vec::<u8>::from(&z)
}

/// Relies on gmp multiplication (mpz_mul) of two non-negative integers.
#[verifier::external_body]
pub(crate) fn big_mul(a: &Vec<u8>, b: &Vec<u8>) -> (r: Vec<u8>)
    ensures
        be_val(r@) == be_val(a@) * be_val(b@),
{
    let z = gmp::mpz::Mpz::from(a.as_slice()) * gmp::mpz::Mpz::from(b.as_slice());
    Vec::<u8>::from(&z)
}

/// Relies on gmp's mpz_mod: the non-negative remainder. The bytes come from
/// mpz_export via sizeinbase, which yields the shortest big-endian form
/// (a single zero byte for zero), hence the canonical result.
#[verifier::external_body]
pub(crate) fn big_mod(a: &Vec<u8>, m: &Vec<u8>) -> (r: Vec<u8>)
    requires
        be_val(m@) >= 1,
    ensures
        be_val(r@) == be_val(a@) % be_val(m@),
        canonical(r@),
{
    let z = gmp::mpz::Mpz::from(a.as_slice()).modulus(&gmp::mpz::Mpz::from(m.as_slice()));
    Vec::<u8>::from(&z)
}

/// Relies on gmp's mpz_cmp through the Ord impl on Mpz.
#[verifier::external_body]
pub(crate) fn big_lt(a: &Vec<u8>, b: &Vec<u8>) -> (r: bool)
    ensures
        r == (be_val(a@) < be_val(b@)),
{
    gmp::mpz::Mpz::from(a.as_slice()) < gmp::mpz::Mpz::from(b.as_slice())
}

/// Relies on gmp's mpz_invert: Some(v) with 0 <= v < m and a*v congruent
/// to 1 modulo m exactly when the inverse exists, None otherwise.
#[verifier::external_body]
pub(crate) fn mod_invert(a: &Vec<u8>, m: &Vec<u8>) -> (r: Option<Vec<u8>>)
    requires
        be_val(m@) >= 2,
    ensures
        match r {
            Some(v) => be_val(v@) < be_val(m@) && (be_val(a@) * be_val(v@)) % be_val(m@) == 1,
            None => !has_inverse(be_val(a@), be_val(m@)),
        },
{
    let z = gmp::mpz::Mpz::from(a.as_slice()).invert(&gmp::mpz::Mpz::from(m.as_slice()));
    match z {
        Some(v) => Some(Vec::<u8>::from(&v)),
        None => None,
    }
}

} // verus!
