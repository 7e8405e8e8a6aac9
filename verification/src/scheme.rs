use vstd::prelude::*;

verus! {

use crate::encoding::be_val;
use crate::encoding::canonical;
use crate::encoding::u64_to_be_bytes;
use crate::encoding::bytes_eq;
use crate::field::has_inverse;
use crate::field::inv_mod;
use crate::field::lemma_inverse_unique;
use crate::field::big_add;
use crate::field::big_mul;
use crate::field::big_mod;
use crate::field::big_sub;
use crate::field::big_lt;
use crate::field::mod_invert;
use crate::field::next_prime_after;
use crate::field::random_below;
use crate::field::random_bits;
use crate::field::entropy_seed;
use crate::field::seeded_generator;
use vstd::arithmetic::div_mod::lemma_small_mod;
use vstd::arithmetic::div_mod::lemma_mod_add_multiples_vanish;
use vstd::arithmetic::div_mod::lemma_sub_mod_noop;
use vstd::slice::slice_to_vec;

/// One point on the secret polynomial: the polynomial's value at `input`,
/// reduced modulo `prime`, all integers in big-endian bytes.
pub struct ShamirShare {
    pub data: Vec<u8>,
    pub prime: Vec<u8>,
    pub input: u64,
}

#[derive(Debug)]
pub enum ShamirError {
    InvalidArgument(String),
    PrimeMismatch,
    DuplicateInput,
}

/// A natural power of a natural base.
pub open spec fn pow_nat(b: nat, e: nat) -> nat
    decreases e,
{
    if e == 0 {
        1
    } else {
        b * pow_nat(b, (e - 1) as nat)
    }
}

/// The first k terms of the polynomial with coefficients `cs` at point `x`.
pub open spec fn poly_prefix(cs: Seq<nat>, x: nat, k: int) -> nat
    decreases k,
{
    if k <= 0 {
        0
    } else {
        poly_prefix(cs, x, k - 1) + cs[k - 1] * pow_nat(x, (k - 1) as nat)
    }
}

/// The polynomial with coefficients `cs` evaluated at `x` (not reduced).
pub open spec fn poly_eval(cs: Seq<nat>, x: nat) -> nat {
    poly_prefix(cs, x, cs.len() as int)
}

/// (a - b) modulo p, as the non-negative residue.
pub open spec fn diff_mod(a: nat, b: nat, p: nat) -> nat {
    (((a as int) - (b as int)) % (p as int)) as nat
}

/// Product over the first k points, skipping index i, of (0 - x_j) mod p,
/// reduced modulo p at every step.
pub open spec fn numerator_prefix(xs: Seq<u64>, i: int, k: int, p: nat) -> nat
    decreases k,
{
    if k <= 0 {
        1
    } else {
        let rest = numerator_prefix(xs, i, k - 1, p);
        if k - 1 == i {
            rest
        } else {
            (rest * diff_mod(0, xs[k - 1] as nat, p)) % p
        }
    }
}

/// Product over the first k points, skipping index i, of (x_i - x_j) mod p,
/// reduced modulo p at every step.
pub open spec fn denominator_prefix(xs: Seq<u64>, i: int, k: int, p: nat) -> nat
    decreases k,
{
    if k <= 0 {
        1
    } else {
        let rest = denominator_prefix(xs, i, k - 1, p);
        if k - 1 == i {
            rest
        } else {
            (rest * diff_mod(xs[i] as nat, xs[k - 1] as nat, p)) % p
        }
    }
}

/// The Lagrange basis numerator at index i: the product of (0 - x_j) mod p
/// over all other points.
pub open spec fn numerator_at(xs: Seq<u64>, i: int, p: nat) -> nat {
    numerator_prefix(xs, i, xs.len() as int, p)
}

/// The Lagrange basis denominator at index i: the product of (x_i - x_j)
/// mod p over all other points.
pub open spec fn denominator_at(xs: Seq<u64>, i: int, p: nat) -> nat {
    denominator_prefix(xs, i, xs.len() as int, p)
}

/// The contribution of share i to the interpolation at x = 0 (not reduced).
pub open spec fn lagrange_term(xs: Seq<u64>, ys: Seq<nat>, i: int, p: nat) -> nat {
    ys[i] * numerator_at(xs, i, p) * inv_mod(denominator_at(xs, i, p), p)
}

/// The first k terms of the interpolation sum, reduced modulo p at each step.
pub open spec fn lagrange_prefix(xs: Seq<u64>, ys: Seq<nat>, k: int, p: nat) -> nat
    decreases k,
{
    if k <= 0 {
        0
    } else {
        (lagrange_prefix(xs, ys, k - 1, p) + lagrange_term(xs, ys, k - 1, p)) % p
    }
}

/// The Lagrange interpolation of the points (x_i, y_i) evaluated at x = 0,
/// entirely modulo p.
pub open spec fn lagrange_at_zero(xs: Seq<u64>, ys: Seq<nat>, p: nat) -> nat {
    lagrange_prefix(xs, ys, xs.len() as int, p)
}

/// The x-coordinates of a share sequence.
pub open spec fn inputs_of(sh: Seq<ShamirShare>) -> Seq<u64> {
    Seq::new(sh.len(), |i: int| sh[i].input)
}

/// The y-values of a share sequence.
pub open spec fn values_of(sh: Seq<ShamirShare>) -> Seq<nat> {
    Seq::new(sh.len(), |i: int| be_val(sh[i].data@))
}

/// The field modulus a share sequence carries, read from its first share.
pub open spec fn field_prime(sh: Seq<ShamirShare>) -> nat {
    be_val(sh[0].prime@)
}

/// All shares carry byte-for-byte the same prime.
pub open spec fn primes_match(sh: Seq<ShamirShare>) -> bool {
    forall|i: int| 0 <= i < sh.len() ==> #[trigger] sh[i].prime@ == sh[0].prime@
}

/// Two shares carry the same x-coordinate.
pub open spec fn has_duplicate_input(sh: Seq<ShamirShare>) -> bool {
    exists|i: int, j: int|
        0 <= i < j < sh.len() && #[trigger] sh[i].input == #[trigger] sh[j].input
}

/// Every Lagrange denominator of the share sequence is invertible mod the prime.
pub open spec fn denominators_invertible(sh: Seq<ShamirShare>) -> bool {
    forall|i: int|
        0 <= i < sh.len() ==> has_inverse(
            #[trigger] denominator_at(inputs_of(sh), i, field_prime(sh)),
            field_prime(sh),
        )
}

/// The value that interpolation at x = 0 recovers from a share sequence.
pub open spec fn recovered_value(sh: Seq<ShamirShare>) -> nat {
    lagrange_at_zero(inputs_of(sh), values_of(sh), field_prime(sh))
}

/// The shares are the polynomial with coefficients `cs` evaluated modulo `p`
/// at the points 1, 2, ..., in order.
pub open spec fn shares_from_polynomial(shares: Seq<ShamirShare>, cs: Seq<nat>, p: nat) -> bool {
    &&& p >= 2
    &&& forall|k: int| 0 <= k < cs.len() ==> #[trigger] cs[k] < p
    &&& forall|i: int|
        0 <= i < shares.len() ==> {
            &&& (#[trigger] shares[i]).input == i + 1
            &&& be_val(shares[i].prime@) == p
            &&& be_val(shares[i].data@) == poly_eval(cs, (i + 1) as nat) % p
        }
}

/// What a successful generation returns for a given secret and counts:
/// one share per point 1..=num_pieces, all on one polynomial of degree
/// required_pieces - 1 whose constant term is the secret's value, over a
/// modulus larger than both the secret and the share count.
pub open spec fn generated_ok(
    shares: Seq<ShamirShare>,
    secret: Seq<u8>,
    num_pieces: u64,
    required_pieces: u64,
) -> bool {
    &&& shares.len() == num_pieces
    &&& exists|cs: Seq<nat>, p: nat|
        {
            &&& #[trigger] shares_from_polynomial(shares, cs, p)
            &&& cs.len() == required_pieces
            &&& cs[0] == be_val(secret)
            &&& p > be_val(secret)
            &&& p > num_pieces
        }
}

/// The x-coordinate reduced into the field: input mod p, canonical bytes.
fn reduce_u64(x: u64, prime: &Vec<u8>) -> (r: Vec<u8>)
    requires
        be_val(prime@) >= 1,
    ensures
        be_val(r@) == (x as nat) % be_val(prime@),
        be_val(r@) < be_val(prime@),
        canonical(r@),
{
    let xb = u64_to_be_bytes(x);
    big_mod(&xb, prime)
}

/// (0 - b) mod p for a residue b already below p.
fn neg_residue(b: &Vec<u8>, prime: &Vec<u8>) -> (r: Vec<u8>)
    requires
        canonical(b@),
        be_val(b@) < be_val(prime@),
        be_val(prime@) >= 1,
    ensures
        be_val(r@) == diff_mod(0, be_val(b@), be_val(prime@)),
{
    let pv: Ghost<nat> = Ghost(be_val(prime@));
    let bv: Ghost<nat> = Ghost(be_val(b@));
    if b.len() == 1 && b[0] == 0 {
        proof {
            crate::encoding::lemma_canonical_zero(b@);
            assert(b@ =~= seq![0u8]);
            assert(bv@ == 0);
            lemma_small_mod(0nat, pv@);
            assert((0int - 0int) % (pv@ as int) == 0);
        }
        Vec::new()
    } else {
        proof {
            crate::encoding::lemma_canonical_zero(b@);
            assert(bv@ != 0);
        }
        let r = big_sub(prime, b);
        proof {
            let pi = pv@ as int;
            let bi = bv@ as int;
            lemma_mod_add_multiples_vanish(0 - bi, pi);
            lemma_small_mod((pi - bi) as nat, pv@);
            assert((0 - bi) % pi == pi - bi);
        }
        r
    }
}

/// (a - b) mod p for residues a and b already below p.
fn sub_residue(a: &Vec<u8>, b: &Vec<u8>, prime: &Vec<u8>) -> (r: Vec<u8>)
    requires
        be_val(a@) < be_val(prime@),
        be_val(b@) < be_val(prime@),
        be_val(prime@) >= 1,
    ensures
        be_val(r@) == diff_mod(be_val(a@), be_val(b@), be_val(prime@)),
{
    let pv: Ghost<nat> = Ghost(be_val(prime@));
    let av: Ghost<nat> = Ghost(be_val(a@));
    let bv: Ghost<nat> = Ghost(be_val(b@));
    if big_lt(a, b) {
        let d = big_sub(b, a);
        let r = big_sub(prime, &d);
        proof {
            let pi = pv@ as int;
            let di = (bv@ - av@) as int;
            lemma_mod_add_multiples_vanish(0 - di, pi);
            lemma_small_mod((pi - di) as nat, pv@);
            assert((av@ as int - bv@ as int) % pi == pi - di);
        }
        r
    } else {
        let r = big_sub(a, b);
        proof {
            lemma_small_mod((av@ - bv@) as nat, pv@);
        }
        r
    }
}

/// Splits a secret into `num_pieces` shares over a fresh prime field, any
/// `required_pieces` of which determine the secret polynomial.
///
/// The field modulus is a probable prime drawn above both the secret value
/// and the share count, from a bit length a tenth larger than the secret's,
/// so every share value and every evaluation point lies strictly inside the
/// field.
///
/// Fails with `InvalidArgument` exactly when `required_pieces > num_pieces`
/// or either count is zero; this is checked before any randomness is drawn.
#[verifier::loop_isolation(false)]
#[verifier::rlimit(30)]
pub fn generate_shares(secret: &[u8], num_pieces: u64, required_pieces: u64) -> (result: Result<
    Vec<ShamirShare>,
    ShamirError,
>)
    requires
        secret@.len() * 44 + 4 <= u64::MAX,
    ensures
        (result is Err) <==> (required_pieces > num_pieces || required_pieces == 0 || num_pieces
            == 0),
        result matches Err(e) ==> e is InvalidArgument,
        result matches Ok(shares) ==> generated_ok(shares@, secret@, num_pieces, required_pieces),
{
    if required_pieces > num_pieces {
        return Err(
            ShamirError::InvalidArgument(
                "required_pieces must be less than or equal to num_pieces".to_owned(),
            ),
        );
    }
    if required_pieces == 0 || num_pieces == 0 {
        return Err(
            ShamirError::InvalidArgument("required_pieces or num_pieces cannot be 0".to_owned()),
        );
    }
    // Candidate bit length: the secret's bit count plus a tenth, rounded up.
    let bit_len: u64 = ((secret.len() as u64) * 44 + 4) / 5;
    let seed = entropy_seed();
    let mut state = seeded_generator(&seed);
    let draw = random_bits(&mut state, bit_len);

    // The modulus must exceed both the secret and every evaluation point.
    let secret_vec = slice_to_vec(secret);
    let cand_secret: Vec<u8> = if big_lt(&draw, &secret_vec) {
        slice_to_vec(secret)
    } else {
        draw
    };
    let np_bytes = u64_to_be_bytes(num_pieces);
    let candidate: Vec<u8> = if big_lt(&cand_secret, &np_bytes) {
        np_bytes
    } else {
        cand_secret
    };
    let prime = next_prime_after(&candidate);
    let ghost pval = be_val(prime@);
    proof {
        assert(pval > be_val(secret@));
        assert(pval > num_pieces as nat);
    }
    // Coefficient 0 is the secret; the rest are uniform draws below the prime.
    let mut coefficients: Vec<Vec<u8>> = Vec::new();
    coefficients.push(secret_vec);
    let ghost mut cs: Seq<nat> = seq![be_val(secret@)];
    let mut j: u64 = 1;
    while j < required_pieces
        invariant
            1 <= j <= required_pieces,
            coefficients@.len() == j as nat,
            cs.len() == j as nat,
            forall|k: int| 0 <= k < j ==> #[trigger] be_val(coefficients@[k]@) == cs[k],
            cs[0] == be_val(secret@),
            forall|k: int| 1 <= k < j ==> #[trigger] cs[k] < pval,
            pval == be_val(prime@),
            pval >= 2,
        decreases required_pieces - j,
    {
        let c = random_below(&mut state, &prime);
        proof {
            cs = cs.push(be_val(c@));
        }
        coefficients.push(c);
        j = j + 1;
    }
    // Evaluate the polynomial at x = 1 ..= num_pieces.
    let mut pieces: Vec<ShamirShare> = Vec::new();
    let klen = coefficients.len();
    let mut idx: u64 = 0;
    while idx < num_pieces
        invariant
            0 <= idx <= num_pieces,
            pieces@.len() == idx as nat,
            klen == coefficients@.len(),
            coefficients@.len() == required_pieces as nat,
            cs.len() == required_pieces as nat,
            required_pieces >= 1,
            forall|k: int| 0 <= k < cs.len() ==> #[trigger] be_val(coefficients@[k]@) == cs[k],
            forall|k: int| 0 <= k < cs.len() ==> #[trigger] cs[k] < pval,
            cs[0] == be_val(secret@),
            pval == be_val(prime@),
            pval >= 2,
            forall|i: int|
                0 <= i < idx ==> {
                    &&& (#[trigger] pieces@[i]).input == i + 1
                    &&& pieces@[i].prime@ == prime@
                    &&& be_val(pieces@[i].data@) == poly_eval(cs, (i + 1) as nat) % pval
                },
        decreases num_pieces - idx,
    {
        let x: u64 = idx + 1;
        let x_bytes = u64_to_be_bytes(x);
        let mut total: Vec<u8> = Vec::new();
        let mut xpow: Vec<u8> = u64_to_be_bytes(1);
        let mut i: usize = 0;
        while i < klen
            invariant
                0 <= i <= klen,
                klen == coefficients@.len(),
                cs.len() == klen as nat,
                forall|k: int| 0 <= k < cs.len() ==> #[trigger] be_val(coefficients@[k]@) == cs[k],
                be_val(total@) == poly_prefix(cs, x as nat, i as int),
                be_val(xpow@) == pow_nat(x as nat, i as nat),
                be_val(x_bytes@) == x as nat,
            decreases klen - i,
        {
            let coef: &Vec<u8> = &coefficients[i];
            let term = big_mul(coef, &xpow);
            let t2 = big_add(&total, &term);
            total = t2;
            let xp = big_mul(&xpow, &x_bytes);
            proof {
                assert(be_val(xp@) == (x as nat) * pow_nat(x as nat, i as nat)) by (nonlinear_arith)
                    requires
                        be_val(xp@) == pow_nat(x as nat, i as nat) * (x as nat),
                ;
                assert(pow_nat(x as nat, (i + 1) as nat) == (x as nat) * pow_nat(x as nat, i as nat));
            }
            xpow = xp;
            i = i + 1;
        }
        let value = big_mod(&total, &prime);
        let share_prime = slice_to_vec(prime.as_slice());
        proof {
            assert(poly_prefix(cs, x as nat, klen as int) == poly_eval(cs, x as nat));
        }
        pieces.push(ShamirShare { data: value, prime: share_prime, input: x });
        idx = idx + 1;
    }
    proof {
        assert(shares_from_polynomial(pieces@, cs, pval));
        assert(generated_ok(pieces@, secret@, num_pieces, required_pieces));
    }
    Ok(pieces)
}

/// Recovers the secret value from shares by Lagrange interpolation at x = 0
/// over the common prime field, and returns its shortest big-endian bytes.
///
/// Fails with `PrimeMismatch` exactly when two shares carry different prime
/// bytes, and with `DuplicateInput` exactly when two shares carry the same
/// x-coordinate or some Lagrange denominator has no inverse in the field;
/// with at least `required_pieces` distinct shares of one generation run the
/// result is the interpolated field value.
#[verifier::loop_isolation(false)]
pub fn rebuild_secret(shares: &[ShamirShare]) -> (result: Result<Vec<u8>, ShamirError>)
    requires
        shares@.len() >= 1,
        be_val(shares@[0].prime@) >= 2,
    ensures
        (result matches Err(ShamirError::PrimeMismatch)) <==> !primes_match(shares@),
        (result matches Err(ShamirError::DuplicateInput)) <==> (primes_match(shares@) && (
        has_duplicate_input(shares@) || !denominators_invertible(shares@))),
        (result is Ok) <==> (primes_match(shares@) && !has_duplicate_input(shares@)
            && denominators_invertible(shares@)),
        result matches Ok(out) ==> be_val(out@) == recovered_value(shares@) && canonical(out@),
{
    let n = shares.len();
    let first = &shares[0];
    let prime = slice_to_vec(first.prime.as_slice());
    let ghost p = be_val(prime@);

    // Every share must carry byte-for-byte the prime of the first.
    let mut i: usize = 1;
    while i < n
        invariant
            1 <= i <= n,
            n == shares@.len(),
            forall|k: int| 0 <= k < i ==> #[trigger] shares@[k].prime@ == shares@[0].prime@,
        decreases n - i,
    {
        let sh = &shares[i];
        if !bytes_eq(&sh.prime, &first.prime) {
            proof {
                assert(!primes_match(shares@));
            }
            return Err(ShamirError::PrimeMismatch);
        }
        i = i + 1;
    }
    proof {
        assert(primes_match(shares@));
    }
    // Interpolation is undefined when two shares sit on one x-coordinate.
    let mut i: usize = 0;
    while i < n
        invariant
            0 <= i <= n,
            n == shares@.len(),
            primes_match(shares@),
            forall|k: int, l: int|
                0 <= k < l < n && k < i ==> #[trigger] shares@[k].input != #[trigger] shares@[l].input,
        decreases n - i,
    {
        let mut j: usize = i + 1;
        while j < n
            invariant
                0 <= i < n,
                i < j <= n,
                n == shares@.len(),
                forall|l: int| i < l < j ==> shares@[i as int].input != #[trigger] shares@[l].input,
            decreases n - j,
        {
            if shares[i].input == shares[j].input {
                proof {
                    assert(has_duplicate_input(shares@));
                }
                return Err(ShamirError::DuplicateInput);
            }
            j = j + 1;
        }
        i = i + 1;
    }
    proof {
        assert(!has_duplicate_input(shares@));
    }
    let ghost xs = inputs_of(shares@);
    let ghost ys = values_of(shares@);
    // Sum the Lagrange terms at x = 0, reducing after each one.
    let mut sum: Vec<u8> = Vec::new();
    let mut i: usize = 0;
    while i < n
        invariant
            0 <= i <= n,
            n == shares@.len(),
            n >= 1,
            p == be_val(prime@),
            p == field_prime(shares@),
            p >= 2,
            xs == inputs_of(shares@),
            ys == values_of(shares@),
            be_val(sum@) == lagrange_prefix(xs, ys, i as int, p),
            i > 0 ==> canonical(sum@),
            forall|k: int| 0 <= k < i ==> has_inverse(#[trigger] denominator_at(xs, k, p), p),
        decreases n - i,
    {
        let shi = &shares[i];
        let xi_red = reduce_u64(shi.input, &prime);
        let mut numerator = u64_to_be_bytes(1);
        let mut denominator = u64_to_be_bytes(1);
        let mut j: usize = 0;
        while j < n
            invariant
                0 <= j <= n,
                0 <= i < n,
                n == shares@.len(),
                p == be_val(prime@),
                p >= 2,
                xs == inputs_of(shares@),
                be_val(xi_red@) == (shares@[i as int].input as nat) % p,
                be_val(xi_red@) < p,
                canonical(xi_red@),
                be_val(numerator@) == numerator_prefix(xs, i as int, j as int, p),
                be_val(denominator@) == denominator_prefix(xs, i as int, j as int, p),
            decreases n - j,
        {
            if j != i {
                let shj = &shares[j];
                let xj_red = reduce_u64(shj.input, &prime);
                let nf = neg_residue(&xj_red, &prime);
                let df = sub_residue(&xi_red, &xj_red, &prime);
                proof {
                    let pi = p as int;
                    let xji = shares@[j as int].input as int;
                    let xii = shares@[i as int].input as int;
                    lemma_sub_mod_noop(0, xji, pi);
                    assert(0int % pi == 0);
                    assert(be_val(nf@) == diff_mod(0, xs[j as int] as nat, p));
                    lemma_sub_mod_noop(xii, xji, pi);
                    assert(be_val(df@) == diff_mod(xs[i as int] as nat, xs[j as int] as nat, p));
                }
                let nm = big_mul(&numerator, &nf);
                numerator = big_mod(&nm, &prime);
                let dm = big_mul(&denominator, &df);
                denominator = big_mod(&dm, &prime);
            }
            j = j + 1;
        }
        proof {
            assert(numerator_prefix(xs, i as int, n as int, p) == numerator_at(xs, i as int, p));
            assert(denominator_prefix(xs, i as int, n as int, p) == denominator_at(
                xs,
                i as int,
                p,
            ));
        }
        match mod_invert(&denominator, &prime) {
            None => {
                proof {
                    assert(!denominators_invertible(shares@));
                }
                return Err(ShamirError::DuplicateInput);
            },
            Some(inv_bytes) => {
                let ghost den = denominator_at(xs, i as int, p);
                proof {
                    assert((den * be_val(inv_bytes@)) % p == 1);
                    assert(has_inverse(den, p));
                    let w = inv_mod(den, p);
                    assert(w < p && (den * w) % p == 1);
                    lemma_inverse_unique(den, p, w, be_val(inv_bytes@));
                    assert(be_val(inv_bytes@) == inv_mod(den, p));
                }
                let t1 = big_mul(&shi.data, &numerator);
                let t2 = big_mul(&t1, &inv_bytes);
                let s2 = big_add(&sum, &t2);
                sum = big_mod(&s2, &prime);
                proof {
                    assert(ys[i as int] == be_val(shares@[i as int].data@));
                    assert(be_val(t2@) == lagrange_term(xs, ys, i as int, p));
                }
            },
        }
        i = i + 1;
    }
    proof {
        assert(denominators_invertible(shares@));
        assert(be_val(sum@) == recovered_value(shares@));
    }
    Ok(sum)
}

/// Law (recovery, threshold one): any single share of a generation run with
/// `required_pieces == 1` recovers exactly the secret's integer value.
pub proof fn lemma_single_share_value(
    shares: Seq<ShamirShare>,
    secret: Seq<u8>,
    num_pieces: u64,
    i: int,
)
    requires
        generated_ok(shares, secret, num_pieces, 1),
        0 <= i < shares.len(),
    ensures
        recovered_value(seq![shares[i]]) == be_val(secret),
{
    let (cs, p): (Seq<nat>, nat) = choose|cs: Seq<nat>, p: nat|
        {
            &&& #[trigger] shares_from_polynomial(shares, cs, p)
            &&& cs.len() == 1nat
            &&& cs[0] == be_val(secret)
            &&& p > be_val(secret)
            &&& p > num_pieces
        };
    let sub = seq![shares[i]];
    let xs = inputs_of(sub);
    let ys = values_of(sub);
    assert(xs.len() == 1 && ys.len() == 1);
    assert(field_prime(sub) == p);
    // The polynomial of degree zero is the constant secret value.
    let x = (i + 1) as nat;
    assert(pow_nat(x, 0) == 1);
    assert(poly_prefix(cs, x, 0) == 0);
    assert(poly_prefix(cs, x, 1) == cs[0] * 1);
    assert(poly_eval(cs, x) == cs[0]);
    lemma_small_mod(cs[0], p);
    assert(shares[i].input == i + 1);
    assert(ys[0] == cs[0]);
    // Both basis products are the empty product.
    assert(numerator_prefix(xs, 0, 0, p) == 1);
    assert(numerator_at(xs, 0, p) == 1);
    assert(denominator_prefix(xs, 0, 0, p) == 1);
    assert(denominator_at(xs, 0, p) == 1);
    // The inverse of 1 is 1.
    lemma_small_mod(1nat, p);
    assert((1nat * 1nat) % p == 1nat);
    assert(has_inverse(1nat, p));
    let w = inv_mod(1nat, p);
    assert(w < p && (1nat * w) % p == 1);
    lemma_small_mod(w, p);
    assert(w == 1nat);
    assert(lagrange_term(xs, ys, 0, p) == cs[0] * 1 * 1);
    assert(lagrange_term(xs, ys, 0, p) == cs[0]);
    assert(lagrange_prefix(xs, ys, 0, p) == 0);
    assert(lagrange_prefix(xs, ys, 1, p) == (0 + cs[0]) % p);
    assert(recovered_value(sub) == cs[0]);
}

/// Law (round trip, threshold one): when the secret bytes are in shortest
/// big-endian form (no leading zero byte), the bytes recovered from any
/// single share of a threshold-one generation equal the secret byte for
/// byte. The bounds on `out` are exactly what `rebuild_secret` ensures of
/// its result on that one share.
pub proof fn lemma_round_trip_one(
    shares: Seq<ShamirShare>,
    secret: Seq<u8>,
    num_pieces: u64,
    i: int,
    out: Seq<u8>,
)
    requires
        generated_ok(shares, secret, num_pieces, 1),
        0 <= i < shares.len(),
        canonical(secret),
        be_val(out) == recovered_value(seq![shares[i]]),
        canonical(out),
    ensures
        out == secret,
{
    lemma_single_share_value(shares, secret, num_pieces, i);
    crate::encoding::lemma_be_val_injective_canonical(out, secret);
}

/// Law (subset independence, threshold one): any two single shares of one
/// threshold-one generation run recover the identical value.
pub proof fn lemma_subset_independence_one(
    shares: Seq<ShamirShare>,
    secret: Seq<u8>,
    num_pieces: u64,
    i: int,
    j: int,
)
    requires
        generated_ok(shares, secret, num_pieces, 1),
        0 <= i < shares.len(),
        0 <= j < shares.len(),
    ensures
        recovered_value(seq![shares[i]]) == recovered_value(seq![shares[j]]),
{
    lemma_single_share_value(shares, secret, num_pieces, i);
    lemma_single_share_value(shares, secret, num_pieces, j);
}

/// The (x, y) pairs that a share sequence carries.
pub open spec fn pairs_of(sh: Seq<ShamirShare>) -> Seq<(u64, nat)> {
    Seq::new(sh.len(), |i: int| (sh[i].input, be_val(sh[i].data@)))
}

/// One step of the numerator product: multiply by (0 - x_j) mod p and reduce.
pub open spec fn num_step(p: nat) -> spec_fn(nat, (u64, nat)) -> nat {
    |acc: nat, z: (u64, nat)| (acc * diff_mod(0, z.0 as nat, p)) % p
}

/// One step of the denominator product: multiply by (x - x_j) mod p and reduce.
pub open spec fn den_step(x: u64, p: nat) -> spec_fn(nat, (u64, nat)) -> nat {
    |acc: nat, z: (u64, nat)| (acc * diff_mod(x as nat, z.0 as nat, p)) % p
}

/// One step of the interpolation sum: add a term and reduce.
pub open spec fn sum_step(p: nat) -> spec_fn(nat, nat) -> nat {
    |acc: nat, t: nat| (acc + t) % p
}

/// The term a pair contributes when interpolating among the other pairs.
pub open spec fn term_among(z: (u64, nat), others: Seq<(u64, nat)>, p: nat) -> nat {
    z.1 * others.fold_left(1nat, num_step(p)) * inv_mod(
        others.fold_left(1nat, den_step(z.0, p)),
        p,
    )
}

/// Reducing a product modulo p between factors does not depend on their order.
proof fn lemma_mulmod_step_comm(v: nat, a: nat, b: nat, p: nat)
    requires
        p >= 1,
    ensures
        (((v * a) % p) * b) % p == (((v * b) % p) * a) % p,
{
    let pi = p as int;
    assert((((v * a) % p) as int * b as int) % pi == ((v * a) as int * b as int) % pi) by {
        vstd::arithmetic::div_mod::lemma_mul_mod_noop_left((v * a) as int, b as int, pi);
    }
    assert((((v * b) % p) as int * a as int) % pi == ((v * b) as int * a as int) % pi) by {
        vstd::arithmetic::div_mod::lemma_mul_mod_noop_left((v * b) as int, a as int, pi);
    }
    assert((v * a) * b == (v * b) * a) by (nonlinear_arith);
}

proof fn lemma_num_step_commutes(p: nat)
    requires
        p >= 1,
    ensures
        vstd::seq_lib::commutative_foldl(num_step(p)),
{
    let f = num_step(p);
    assert forall|x: (u64, nat), y: (u64, nat), v: nat| #[trigger] f(f(v, x), y) == f(
        f(v, y),
        x,
    ) by {
        lemma_mulmod_step_comm(v, diff_mod(0, x.0 as nat, p), diff_mod(0, y.0 as nat, p), p);
    }
}

proof fn lemma_den_step_commutes(x0: u64, p: nat)
    requires
        p >= 1,
    ensures
        vstd::seq_lib::commutative_foldl(den_step(x0, p)),
{
    let f = den_step(x0, p);
    assert forall|x: (u64, nat), y: (u64, nat), v: nat| #[trigger] f(f(v, x), y) == f(
        f(v, y),
        x,
    ) by {
        lemma_mulmod_step_comm(
            v,
            diff_mod(x0 as nat, x.0 as nat, p),
            diff_mod(x0 as nat, y.0 as nat, p),
            p,
        );
    }
}

proof fn lemma_sum_step_commutes(p: nat)
    requires
        p >= 1,
    ensures
        vstd::seq_lib::commutative_foldl(sum_step(p)),
{
    let f = sum_step(p);
    let pi = p as int;
    assert forall|x: nat, y: nat, v: nat| #[trigger] f(f(v, x), y) == f(f(v, y), x) by {
        vstd::arithmetic::div_mod::lemma_add_mod_noop_right(y as int, (v + x) as int, pi);
        vstd::arithmetic::div_mod::lemma_add_mod_noop_right(x as int, (v + y) as int, pi);
    }
}

/// A pair's term depends on the other pairs only through their multiset.
proof fn lemma_term_among_multiset(z: (u64, nat), o1: Seq<(u64, nat)>, o2: Seq<(u64, nat)>, p: nat)
    requires
        p >= 1,
        o1.to_multiset() == o2.to_multiset(),
    ensures
        term_among(z, o1, p) == term_among(z, o2, p),
{
    lemma_num_step_commutes(p);
    lemma_den_step_commutes(z.0, p);
    vstd::seq_lib::lemma_fold_left_permutation(o1, o2, num_step(p), 1nat);
    vstd::seq_lib::lemma_fold_left_permutation(o1, o2, den_step(z.0, p), 1nat);
}

/// The pairs among the first k, the skipped index i taken out.
spec fn skip_prefix(zs: Seq<(u64, nat)>, i: int, k: int) -> Seq<(u64, nat)> {
    if k <= i {
        zs.subrange(0, k)
    } else {
        zs.remove(i).subrange(0, k - 1)
    }
}

proof fn lemma_num_prefix_fold(sh: Seq<ShamirShare>, i: int, k: int, p: nat)
    requires
        0 <= i < sh.len(),
        0 <= k <= sh.len(),
    ensures
        numerator_prefix(inputs_of(sh), i, k, p) == skip_prefix(pairs_of(sh), i, k).fold_left(
            1nat,
            num_step(p),
        ),
    decreases k,
{
    let zs = pairs_of(sh);
    let xs = inputs_of(sh);
    let f = num_step(p);
    if k == 0 {
        assert(skip_prefix(zs, i, 0) =~= Seq::<(u64, nat)>::empty());
    } else if k - 1 == i {
        lemma_num_prefix_fold(sh, i, k - 1, p);
        assert(skip_prefix(zs, i, k) =~= skip_prefix(zs, i, k - 1));
    } else {
        lemma_num_prefix_fold(sh, i, k - 1, p);
        let pre = skip_prefix(zs, i, k - 1);
        let cur = skip_prefix(zs, i, k);
        assert(cur =~= pre.push(zs[k - 1]));
        assert(cur.drop_last() =~= pre);
        assert(cur.last() == zs[k - 1]);
        assert(cur.fold_left(1nat, f) == f(pre.fold_left(1nat, f), zs[k - 1]));
        assert(xs[k - 1] == zs[k - 1].0);
    }
}

proof fn lemma_den_prefix_fold(sh: Seq<ShamirShare>, i: int, k: int, p: nat)
    requires
        0 <= i < sh.len(),
        0 <= k <= sh.len(),
    ensures
        denominator_prefix(inputs_of(sh), i, k, p) == skip_prefix(pairs_of(sh), i, k).fold_left(
            1nat,
            den_step(sh[i].input, p),
        ),
    decreases k,
{
    let zs = pairs_of(sh);
    let xs = inputs_of(sh);
    let f = den_step(sh[i].input, p);
    if k == 0 {
        assert(skip_prefix(zs, i, 0) =~= Seq::<(u64, nat)>::empty());
    } else if k - 1 == i {
        lemma_den_prefix_fold(sh, i, k - 1, p);
        assert(skip_prefix(zs, i, k) =~= skip_prefix(zs, i, k - 1));
    } else {
        lemma_den_prefix_fold(sh, i, k - 1, p);
        let pre = skip_prefix(zs, i, k - 1);
        let cur = skip_prefix(zs, i, k);
        assert(cur =~= pre.push(zs[k - 1]));
        assert(cur.drop_last() =~= pre);
        assert(cur.last() == zs[k - 1]);
        assert(cur.fold_left(1nat, f) == f(pre.fold_left(1nat, f), zs[k - 1]));
        assert(xs[k - 1] == zs[k - 1].0);
        assert(xs[i] == sh[i].input);
    }
}

/// A share's Lagrange term, written over the pair view.
proof fn lemma_term_as_pairs(sh: Seq<ShamirShare>, i: int, p: nat)
    requires
        0 <= i < sh.len(),
    ensures
        lagrange_term(inputs_of(sh), values_of(sh), i, p) == term_among(
            pairs_of(sh)[i],
            pairs_of(sh).remove(i),
            p,
        ),
{
    let zs = pairs_of(sh);
    lemma_num_prefix_fold(sh, i, sh.len() as int, p);
    lemma_den_prefix_fold(sh, i, sh.len() as int, p);
    assert(skip_prefix(zs, i, sh.len() as int) =~= zs.remove(i));
    assert(values_of(sh)[i] == zs[i].1);
    assert(sh[i].input == zs[i].0);
}

/// The Lagrange terms of a share sequence, in order.
spec fn terms_seq(sh: Seq<ShamirShare>, p: nat) -> Seq<nat> {
    Seq::new(sh.len(), |i: int| lagrange_term(inputs_of(sh), values_of(sh), i, p))
}

proof fn lemma_lagrange_prefix_fold(sh: Seq<ShamirShare>, k: int, p: nat)
    requires
        0 <= k <= sh.len(),
    ensures
        lagrange_prefix(inputs_of(sh), values_of(sh), k, p) == terms_seq(sh, p).subrange(
            0,
            k,
        ).fold_left(0nat, sum_step(p)),
    decreases k,
{
    let ts = terms_seq(sh, p);
    let f = sum_step(p);
    if k == 0 {
        assert(ts.subrange(0, 0) =~= Seq::<nat>::empty());
    } else {
        lemma_lagrange_prefix_fold(sh, k - 1, p);
        let pre = ts.subrange(0, k - 1);
        let cur = ts.subrange(0, k);
        assert(cur =~= pre.push(ts[k - 1]));
        assert(cur.drop_last() =~= pre);
        assert(cur.last() == ts[k - 1]);
        assert(cur.fold_left(0nat, f) == f(pre.fold_left(0nat, f), ts[k - 1]));
    }
}

/// The recovered value, written as a fold over the terms.
proof fn lemma_recovered_as_fold(sh: Seq<ShamirShare>, p: nat)
    requires
        sh.len() >= 1,
        p == field_prime(sh),
    ensures
        recovered_value(sh) == terms_seq(sh, p).fold_left(0nat, sum_step(p)),
{
    lemma_lagrange_prefix_fold(sh, sh.len() as int, p);
    assert(terms_seq(sh, p).subrange(0, sh.len() as int) =~= terms_seq(sh, p));
}

/// Mapping a function over two sequences with equal multisets yields equal
/// multisets of results.
proof fn lemma_map_values_multiset<A, B>(s1: Seq<A>, s2: Seq<A>, f: spec_fn(A) -> B)
    requires
        s1.to_multiset() == s2.to_multiset(),
    ensures
        s1.map_values(f).to_multiset() == s2.map_values(f).to_multiset(),
    decreases s1.len(),
{
    broadcast use vstd::seq_lib::group_to_multiset_ensures;

    if s1.len() == 0 {
        assert(s2.to_multiset().len() == 0);
        assert(s1.map_values(f) =~= Seq::<B>::empty());
        assert(s2.map_values(f) =~= Seq::<B>::empty());
    } else {
        let a = s1.last();
        let i1 = s1.len() - 1;
        assert(s1[i1] == a);
        assert(s1.contains(a));
        assert(s1.to_multiset().count(a) > 0);
        assert(s2.to_multiset().count(a) > 0);
        assert(s2.contains(a));
        let i2 = s2.index_of(a);
        assert(0 <= i2 < s2.len() && s2[i2] == a);
        assert(s1.drop_last() =~= s1.remove(i1));
        assert(s1.remove(i1).to_multiset() =~= s1.to_multiset().remove(a));
        assert(s2.remove(i2).to_multiset() =~= s2.to_multiset().remove(a));
        lemma_map_values_multiset(s1.drop_last(), s2.remove(i2), f);
        assert(s1.map_values(f) =~= s1.drop_last().map_values(f).push(f(a)));
        assert(s1.map_values(f).to_multiset() =~= s1.drop_last().map_values(
            f,
        ).to_multiset().insert(f(a)));
        assert(s2.map_values(f).remove(i2) =~= s2.remove(i2).map_values(f));
        assert(s2.map_values(f)[i2] == f(a));
        assert(s2.map_values(f).remove(i2).to_multiset() =~= s2.map_values(
            f,
        ).to_multiset().remove(f(a)));
        assert(s2.map_values(f).contains(f(a)));
        assert(s2.map_values(f).to_multiset().count(f(a)) > 0);
        assert(s2.map_values(f).to_multiset().remove(f(a)).insert(f(a)) =~= s2.map_values(
            f,
        ).to_multiset());
        assert(s1.map_values(f).to_multiset() =~= s2.map_values(f).to_multiset());
    }
}

/// Share sequences carrying the same pairs carry the same terms.
proof fn lemma_terms_multiset(sh1: Seq<ShamirShare>, sh2: Seq<ShamirShare>, p: nat)
    requires
        p >= 1,
        pairs_of(sh1).to_multiset() == pairs_of(sh2).to_multiset(),
    ensures
        terms_seq(sh1, p).to_multiset() == terms_seq(sh2, p).to_multiset(),
{
    broadcast use vstd::seq_lib::group_to_multiset_ensures;

    let zs1 = pairs_of(sh1);
    let zs2 = pairs_of(sh2);
    let g = |z: (u64, nat)| term_among(z, zs1.remove(zs1.index_of(z)), p);
    assert forall|i: int| 0 <= i < sh1.len() implies terms_seq(sh1, p)[i] == g(zs1[i]) by {
        lemma_term_as_pairs(sh1, i, p);
        let z = zs1[i];
        assert(zs1[i] == z);
        assert(zs1.contains(z));
        let i0 = zs1.index_of(z);
        assert(zs1[i0] == z);
        assert(zs1.remove(i).to_multiset() =~= zs1.to_multiset().remove(z));
        assert(zs1.remove(i0).to_multiset() =~= zs1.to_multiset().remove(z));
        lemma_term_among_multiset(z, zs1.remove(i), zs1.remove(i0), p);
    }
    assert(terms_seq(sh1, p) =~= zs1.map_values(g));
    assert forall|i: int| 0 <= i < sh2.len() implies terms_seq(sh2, p)[i] == g(zs2[i]) by {
        lemma_term_as_pairs(sh2, i, p);
        let z = zs2[i];
        assert(zs2[i] == z);
        assert(zs2.contains(z));
        assert(zs2.to_multiset().count(z) > 0);
        assert(zs1.to_multiset().count(z) > 0);
        assert(zs1.contains(z));
        let i0 = zs1.index_of(z);
        assert(zs1[i0] == z);
        assert(zs2.remove(i).to_multiset() =~= zs2.to_multiset().remove(z));
        assert(zs1.remove(i0).to_multiset() =~= zs1.to_multiset().remove(z));
        lemma_term_among_multiset(z, zs2.remove(i), zs1.remove(i0), p);
    }
    assert(terms_seq(sh2, p) =~= zs2.map_values(g));
    lemma_map_values_multiset(zs1, zs2, g);
}

/// Law (order independence): interpolation at x = 0 depends only on which
/// shares are given, never on their order. Two sequences carrying the same
/// multiset of shares over the same field prime recover the same value.
pub proof fn lemma_order_independence(sh1: Seq<ShamirShare>, sh2: Seq<ShamirShare>)
    requires
        sh1.len() >= 1,
        sh1.to_multiset() == sh2.to_multiset(),
        field_prime(sh1) == field_prime(sh2),
        field_prime(sh1) >= 1,
    ensures
        recovered_value(sh1) == recovered_value(sh2),
{
    broadcast use vstd::seq_lib::group_to_multiset_ensures;

    let p = field_prime(sh1);
    assert(sh1.len() == sh1.to_multiset().len());
    assert(sh2.len() == sh2.to_multiset().len());
    let pf = |s: ShamirShare| (s.input, be_val(s.data@));
    assert(pairs_of(sh1) =~= sh1.map_values(pf));
    assert(pairs_of(sh2) =~= sh2.map_values(pf));
    lemma_map_values_multiset(sh1, sh2, pf);
    lemma_terms_multiset(sh1, sh2, p);
    lemma_recovered_as_fold(sh1, p);
    lemma_recovered_as_fold(sh2, p);
    lemma_sum_step_commutes(p);
    vstd::seq_lib::lemma_fold_left_permutation(
        terms_seq(sh1, p),
        terms_seq(sh2, p),
        sum_step(p),
        0nat,
    );
}

/// Matching primes are a property of which shares are present, not of order.
proof fn lemma_primes_match_one_way(sh1: Seq<ShamirShare>, sh2: Seq<ShamirShare>)
    requires
        sh1.len() >= 1,
        sh1.to_multiset() == sh2.to_multiset(),
        primes_match(sh1),
    ensures
        primes_match(sh2),
        sh1[0].prime@ == sh2[0].prime@,
    decreases sh1.len(),
{
    broadcast use vstd::seq_lib::group_to_multiset_ensures;

    assert(sh1.len() == sh1.to_multiset().len());
    assert(sh2.len() == sh2.to_multiset().len());
    assert forall|i: int| 0 <= i < sh2.len() implies #[trigger] sh2[i].prime@
        == sh1[0].prime@ by {
        assert(sh2.contains(sh2[i]));
        assert(sh2.to_multiset().count(sh2[i]) > 0);
        assert(sh1.to_multiset().count(sh2[i]) > 0);
        assert(sh1.contains(sh2[i]));
        let k = sh1.index_of(sh2[i]);
        assert(sh1[k] == sh2[i]);
        assert(sh1[k].prime@ == sh1[0].prime@);
    }
    assert(sh2[0].prime@ == sh1[0].prime@);
}

/// A duplicated x-coordinate is a property of which shares are present.
proof fn lemma_duplicate_input_one_way(sh1: Seq<ShamirShare>, sh2: Seq<ShamirShare>)
    requires
        sh1.to_multiset() == sh2.to_multiset(),
        has_duplicate_input(sh1),
    ensures
        has_duplicate_input(sh2),
{
    broadcast use vstd::seq_lib::group_to_multiset_ensures;

    let xs1 = inputs_of(sh1);
    let xs2 = inputs_of(sh2);
    let f = |s: ShamirShare| s.input;
    assert(xs1 =~= sh1.map_values(f));
    assert(xs2 =~= sh2.map_values(f));
    lemma_map_values_multiset(sh1, sh2, f);
    let (i, j): (int, int) = choose|i: int, j: int|
        0 <= i < j < sh1.len() && #[trigger] sh1[i].input == #[trigger] sh1[j].input;
    assert(0 <= i < j < sh1.len() && sh1[i].input == sh1[j].input);
    assert(xs1[i] == sh1[i].input);
    assert(xs1[j] == sh1[j].input);
    assert(xs1[i] == xs1[j] && i != j);
    assert(!xs1.no_duplicates());
    if xs2.no_duplicates() {
        xs2.lemma_multiset_has_no_duplicates();
        xs1.lemma_multiset_has_no_duplicates_conv();
    }
    assert(!xs2.no_duplicates());
    let (k, l): (int, int) = choose|k: int, l: int|
        0 <= k < xs2.len() && 0 <= l < xs2.len() && k != l && xs2[k] == xs2[l];
    if k < l {
        assert(sh2[k].input == sh2[l].input);
    } else {
        assert(sh2[l].input == sh2[k].input);
    }
}

/// Invertibility of every Lagrange denominator is a property of which shares
/// are present, not of their order.
proof fn lemma_denominators_one_way(sh1: Seq<ShamirShare>, sh2: Seq<ShamirShare>, p: nat)
    requires
        sh1.len() >= 1,
        sh1.to_multiset() == sh2.to_multiset(),
        p == field_prime(sh1),
        p == field_prime(sh2),
        p >= 1,
        denominators_invertible(sh1),
    ensures
        denominators_invertible(sh2),
{
    broadcast use vstd::seq_lib::group_to_multiset_ensures;

    assert(sh1.len() == sh1.to_multiset().len());
    assert(sh2.len() == sh2.to_multiset().len());
    let zs1 = pairs_of(sh1);
    let zs2 = pairs_of(sh2);
    let pf = |s: ShamirShare| (s.input, be_val(s.data@));
    assert(zs1 =~= sh1.map_values(pf));
    assert(zs2 =~= sh2.map_values(pf));
    lemma_map_values_multiset(sh1, sh2, pf);
    assert forall|i: int| 0 <= i < sh2.len() implies has_inverse(
        #[trigger] denominator_at(inputs_of(sh2), i, p),
        p,
    ) by {
        let z = zs2[i];
        assert(zs2[i] == z);
        assert(zs2.contains(z));
        assert(zs2.to_multiset().count(z) > 0);
        assert(zs1.to_multiset().count(z) > 0);
        assert(zs1.contains(z));
        let k = zs1.index_of(z);
        assert(zs1[k] == z);
        lemma_den_prefix_fold(sh2, i, sh2.len() as int, p);
        lemma_den_prefix_fold(sh1, k, sh1.len() as int, p);
        assert(skip_prefix(zs2, i, sh2.len() as int) =~= zs2.remove(i));
        assert(skip_prefix(zs1, k, sh1.len() as int) =~= zs1.remove(k));
        assert(sh1[k].input == z.0);
        assert(sh2[i].input == z.0);
        assert(zs2.remove(i).to_multiset() =~= zs2.to_multiset().remove(z));
        assert(zs1.remove(k).to_multiset() =~= zs1.to_multiset().remove(z));
        lemma_den_step_commutes(z.0, p);
        vstd::seq_lib::lemma_fold_left_permutation(
            zs1.remove(k),
            zs2.remove(i),
            den_step(z.0, p),
            1nat,
        );
        assert(denominator_at(inputs_of(sh1), k, p) == denominator_at(inputs_of(sh2), i, p));
        assert(has_inverse(denominator_at(inputs_of(sh1), k, p), p));
    }
}

/// Law (order independence of the outcome): the conditions that decide which
/// result `rebuild_secret` returns -- a prime mismatch, a duplicated or
/// uninvertible x-coordinate, or success -- do not depend on share order.
pub proof fn lemma_outcome_order_independence(sh1: Seq<ShamirShare>, sh2: Seq<ShamirShare>)
    requires
        sh1.len() >= 1,
        sh1.to_multiset() == sh2.to_multiset(),
    ensures
        primes_match(sh1) == primes_match(sh2),
        has_duplicate_input(sh1) == has_duplicate_input(sh2),
        primes_match(sh1) && field_prime(sh1) >= 1 ==> denominators_invertible(sh1)
            == denominators_invertible(sh2),
{
    broadcast use vstd::seq_lib::group_to_multiset_ensures;

    assert(sh1.len() == sh1.to_multiset().len());
    assert(sh2.len() == sh2.to_multiset().len());
    if primes_match(sh1) {
        lemma_primes_match_one_way(sh1, sh2);
    }
    if primes_match(sh2) {
        lemma_primes_match_one_way(sh2, sh1);
    }
    if has_duplicate_input(sh1) {
        lemma_duplicate_input_one_way(sh1, sh2);
    }
    if has_duplicate_input(sh2) {
        lemma_duplicate_input_one_way(sh2, sh1);
    }
    if primes_match(sh1) && field_prime(sh1) >= 1 {
        let p = field_prime(sh1);
        lemma_primes_match_one_way(sh1, sh2);
        if denominators_invertible(sh1) {
            lemma_denominators_one_way(sh1, sh2, p);
        }
        if denominators_invertible(sh2) {
            lemma_denominators_one_way(sh2, sh1, p);
        }
    }
}

} // verus!
