use vstd::prelude::*;

verus! {

/// 2 raised to a natural power.
pub open spec fn pow2(e: nat) -> nat
    decreases e,
{
    if e == 0 {
        1
    } else {
        2 * pow2((e - 1) as nat)
    }
}

/// 256 raised to a natural power: the weight of a byte position.
pub open spec fn pow256(e: nat) -> nat
    decreases e,
{
    if e == 0 {
        1
    } else {
        256 * pow256((e - 1) as nat)
    }
}

pub proof fn lemma_pow256_pos(e: nat)
    ensures
        pow256(e) >= 1,
    decreases e,
{
    if e > 0 {
        lemma_pow256_pos((e - 1) as nat);
    }
}

pub proof fn lemma_pow256_increases(e1: nat, e2: nat)
    requires
        e1 <= e2,
    ensures
        pow256(e1) <= pow256(e2),
    decreases e2,
{
    if e1 < e2 {
        lemma_pow256_increases(e1, (e2 - 1) as nat);
        lemma_pow256_pos((e2 - 1) as nat);
    }
}

/// The non-negative integer denoted by a byte sequence read as a
/// big-endian base-256 numeral.
pub open spec fn be_val(s: Seq<u8>) -> nat
    decreases s.len(),
{
    if s.len() == 0 {
        0
    } else {
        (s[0] as nat) * pow256((s.len() - 1) as nat) + be_val(s.subrange(1, s.len() as int))
    }
}

/// The shortest big-endian form of a value: a single byte for zero,
/// otherwise no leading zero byte.
pub open spec fn canonical(s: Seq<u8>) -> bool {
    s.len() >= 1 && (s.len() > 1 ==> s[0] != 0)
}

/// Every byte sequence of length n denotes a value below 256^n.
pub proof fn lemma_be_val_upper(s: Seq<u8>)
    ensures
        be_val(s) < pow256(s.len()),
    decreases s.len(),
{
    lemma_pow256_pos(s.len());
    if s.len() > 0 {
        let tail = s.subrange(1, s.len() as int);
        lemma_be_val_upper(tail);
        lemma_pow256_pos((s.len() - 1) as nat);
        let p = pow256((s.len() - 1) as nat);
        assert((s[0] as nat) * p <= 255 * p) by (nonlinear_arith)
            requires
                0 <= s[0] < 256,
                p >= 1,
        ;
        assert(pow256(s.len()) == 256 * p);
    }
}

/// A sequence with a nonzero leading byte denotes a value of at least 256^(n-1).
pub proof fn lemma_be_val_lower(s: Seq<u8>)
    requires
        s.len() >= 1,
        s[0] != 0,
    ensures
        be_val(s) >= pow256((s.len() - 1) as nat),
{
    let p = pow256((s.len() - 1) as nat);
    lemma_pow256_pos((s.len() - 1) as nat);
    assert((s[0] as nat) * p >= 1 * p) by (nonlinear_arith)
        requires
            s[0] >= 1,
            p >= 1,
    ;
}

/// Two byte sequences of equal length denoting the same value are equal.
pub proof fn lemma_be_val_injective_same_len(a: Seq<u8>, b: Seq<u8>)
    requires
        a.len() == b.len(),
        be_val(a) == be_val(b),
    ensures
        a == b,
    decreases a.len(),
{
    if a.len() == 0 {
        assert(a =~= b);
    } else {
        let ta = a.subrange(1, a.len() as int);
        let tb = b.subrange(1, b.len() as int);
        let p = pow256((a.len() - 1) as nat);
        lemma_pow256_pos((a.len() - 1) as nat);
        lemma_be_val_upper(ta);
        lemma_be_val_upper(tb);
        assert(a[0] == b[0] && be_val(ta) == be_val(tb)) by (nonlinear_arith)
            requires
                p >= 1,
                (a[0] as nat) * p + be_val(ta) == (b[0] as nat) * p + be_val(tb),
                be_val(ta) < p,
                be_val(tb) < p,
                0 <= a[0] < 256,
                0 <= b[0] < 256,
        ;
        lemma_be_val_injective_same_len(ta, tb);
        assert forall|i: int| 0 <= i < a.len() implies a[i] == b[i] by {
            if i > 0 {
                assert(a[i] == ta[i - 1]);
                assert(b[i] == tb[i - 1]);
            }
        }
        assert(a =~= b);
    }
}

/// A strictly longer canonical sequence denotes a strictly larger value.
proof fn lemma_canonical_len_order(a: Seq<u8>, b: Seq<u8>)
    requires
        canonical(a),
        canonical(b),
        a.len() < b.len(),
    ensures
        be_val(a) < be_val(b),
{
    lemma_be_val_upper(a);
    assert(b.len() >= 2);
    lemma_be_val_lower(b);
    lemma_pow256_increases(a.len(), (b.len() - 1) as nat);
}

/// Two canonical byte sequences denoting the same value are equal.
pub proof fn lemma_be_val_injective_canonical(a: Seq<u8>, b: Seq<u8>)
    requires
        canonical(a),
        canonical(b),
        be_val(a) == be_val(b),
    ensures
        a == b,
{
    if a.len() == b.len() {
        lemma_be_val_injective_same_len(a, b);
    } else if a.len() < b.len() {
        lemma_canonical_len_order(a, b);
    } else {
        lemma_canonical_len_order(b, a);
    }
}

/// A canonical sequence denotes zero exactly when it is the single zero byte.
pub proof fn lemma_canonical_zero(s: Seq<u8>)
    requires
        canonical(s),
    ensures
        (be_val(s) == 0) <==> (s =~= seq![0u8]),
{
    if s.len() == 1 {
        assert(s.subrange(1, 1).len() == 0);
        assert(be_val(s) == (s[0] as nat) * pow256(0) + be_val(s.subrange(1, 1)));
        if s =~= seq![0u8] {
            assert(s[0] == 0);
        }
        if be_val(s) == 0 {
            assert(s[0] == 0);
            assert(s =~= seq![0u8]);
        }
    } else {
        lemma_be_val_lower(s);
        lemma_pow256_pos((s.len() - 1) as nat);
    }
}

/// The big-endian bytes of a machine word, shortest form (empty for zero).
pub fn u64_to_be_bytes(x: u64) -> (r: Vec<u8>)
    ensures
        be_val(r@) == x as nat,
{
    let mut v: Vec<u8> = Vec::new();
    let mut rem: u64 = x;
    proof {
        assert(pow256(v@.len()) == 1);
        assert(be_val(v@) == 0);
        assert((rem as nat) * 1 == rem as nat);
    }
    while rem > 0
        invariant
            (rem as nat) * pow256(v@.len()) + be_val(v@) == x as nat,
        decreases rem,
    {
        let ghost old_v = v@;
        let ghost old_rem = rem as nat;
        let b: u8 = (rem % 256) as u8;
        v.insert(0, b);
        rem = rem / 256;
        proof {
            assert(v@ =~= seq![b].add(old_v));
            assert(v@.subrange(1, v@.len() as int) =~= old_v);
            assert(be_val(v@) == (b as nat) * pow256(old_v.len()) + be_val(old_v));
            lemma_pow256_pos(old_v.len());
            let p = pow256(old_v.len());
            assert(pow256(v@.len()) == 256 * p);
            assert((rem as nat) * (256 * p) + (b as nat) * p == old_rem * p) by (nonlinear_arith)
                requires
                    rem as nat == old_rem / 256,
                    b as nat == old_rem % 256,
                    old_rem < 0x10000000000000000,
                    p >= 1,
            {
                vstd::arithmetic::div_mod::lemma_fundamental_div_mod(old_rem as int, 256);
            }
        }
    }
    v
}

/// Byte-for-byte equality of two byte vectors.
pub fn bytes_eq(a: &Vec<u8>, b: &Vec<u8>) -> (r: bool)
    ensures
        r == (a@ == b@),
{
    if a.len() != b.len() {
        return false;
    }
    let mut i: usize = 0;
    while i < a.len()
        invariant
            0 <= i <= a@.len(),
            a@.len() == b@.len(),
            forall|j: int| 0 <= j < i ==> a@[j] == b@[j],
        decreases a@.len() - i,
    {
        if a[i] != b[i] {
            return false;
        }
        i += 1;
    }
    proof {
        assert(a@ =~= b@);
    }
    true
}

} // verus!
