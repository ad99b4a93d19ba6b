use vstd::prelude::*;
use halo2curves::bn256::Fr;
use halo2curves::ff::PrimeField;

verus! {

/// The scalar field of BN254, as the outside crate computes with it.
#[verifier::external_type_specification]
#[verifier::external_body]
pub struct ExFr(halo2curves::bn256::Fr);

/// 2^128.
pub open spec fn two128() -> nat {
    u128::MAX as nat + 1
}

/// The high 128 bits of the BN254 scalar modulus.
pub const MODULUS_HI: u128 = 0x30644e72e131a029b85045b68181585d;
/// The low 128 bits of the BN254 scalar modulus.
pub const MODULUS_LO: u128 = 0x2833e84879b9709143e1f593f0000001;

/// The BN254 scalar modulus.
pub open spec fn modulus() -> nat {
    MODULUS_LO as nat + two128() * MODULUS_HI as nat
}

/// A field value as its canonical integer, in two 128-bit halves.
#[derive(Clone, Copy, Debug, PartialEq, Eq, Structural)]
pub struct Felt {
    pub lo: u128,
    pub hi: u128,
}

/// The integer that a field value holds.
pub open spec fn value(f: Felt) -> nat {
    f.lo as nat + two128() * f.hi as nat
}

/// The number that little-endian bytes stand for.
pub open spec fn le_value(b: Seq<u8>) -> nat
    decreases b.len(),
{
    if b.len() == 0 {
        0
    } else {
        b[0] as nat + 256 * le_value(b.drop_first())
    }
}

/// 256 to the power `n`.
pub open spec fn pow256(n: nat) -> nat
    decreases n,
{
    if n == 0 { 1 } else { 256 * pow256((n - 1) as nat) }
}

proof fn lemma_le_concat(a: Seq<u8>, b: Seq<u8>)
    ensures
        le_value(a + b) == le_value(a) + pow256(a.len()) * le_value(b),
    decreases a.len(),
{
    if a.len() > 0 {
        assert((a + b).drop_first() =~= a.drop_first() + b);
        lemma_le_concat(a.drop_first(), b);
        let x = le_value(a.drop_first());
        let p = pow256(a.drop_first().len());
        let y = le_value(b);
        assert(256 * (x + p * y) == 256 * x + (256 * p) * y) by (nonlinear_arith);
        assert((a + b)[0] == a[0]);
        assert(pow256(a.len()) == 256 * p);
        assert(le_value(a + b) == (a + b)[0] as nat + 256 * le_value((a + b).drop_first()));
        assert(le_value((a + b).drop_first()) == x + p * y);
        assert(le_value(a + b) == a[0] as nat + 256 * x + (256 * p) * y);
        assert(le_value(a) == a[0] as nat + 256 * x);
    } else {
        assert(a + b =~= b);
        assert(pow256(0) == 1);
        assert(le_value(a) == 0);
        assert(1 * le_value(b) == le_value(b));
    }
}

/// Relies on `PrimeField::to_repr` for `Fr`: the canonical integer of the
/// value, below the modulus, as 32 little-endian bytes.
#[verifier::external_body]
fn fr_repr(x: &Fr) -> (r: Vec<u8>)
    ensures
        r@.len() == 32,
        le_value(r@) < modulus(),
{
    x.to_repr().to_vec()
}

proof fn lemma_le_bound(b: Seq<u8>)
    ensures
        le_value(b) < pow256(b.len()),
    decreases b.len(),
{
    if b.len() > 0 {
        lemma_le_bound(b.drop_first());
        let x = le_value(b.drop_first());
        let p = pow256(b.drop_first().len());
        assert(b[0] as nat + 256 * x < 256 * p) by (nonlinear_arith)
            requires x < p, b[0] < 256;
    }
}

/// The number that 16 little-endian bytes stand for.
fn u128_from_le(b: &Vec<u8>) -> (r: u128)
    requires
        b@.len() == 16,
    ensures
        r as nat == le_value(b@),
{
    proof {
        reveal_with_fuel(pow256, 17);
    }
    let mut acc: u128 = 0;
    let mut i: usize = 16;
    while i > 0
        invariant
            b@.len() == 16,
            0 <= i <= 16,
            acc as nat == le_value(b@.subrange(i as int, 16)),
            pow256(16) == u128::MAX as nat + 1,
        decreases i,
    {
        let ghost tail = b@.subrange(i as int, 16);
        let ghost next = b@.subrange(i - 1, 16);
        proof {
            assert(next.drop_first() =~= tail);
            lemma_le_bound(tail);
            lemma_pow256_mono((16 - i) as nat, 15);
            assert(256 * (acc as nat) + 255 < 256 * pow256(15) + 1) by (nonlinear_arith)
                requires (acc as nat) < pow256((16 - i) as nat), pow256((16 - i) as nat) <= pow256(15);
        }
        acc = acc * 256 + b[i - 1] as u128;
        i -= 1;
    }
    proof {
        assert(b@.subrange(0, 16) =~= b@);
    }
    acc
}

proof fn lemma_pow256_mono(m: nat, n: nat)
    requires
        m <= n,
    ensures
        pow256(m) <= pow256(n),
    decreases n - m,
{
    if m < n {
        lemma_pow256_mono(m, (n - 1) as nat);
    }
}

impl Felt {
    /// The canonical integer of an outside field value.
    pub fn from_fr(x: &Fr) -> (f: Felt)
        ensures
            value(f) < modulus(),
    {
        let bytes = fr_repr(x);
        let mut low: Vec<u8> = Vec::new();
        let mut high: Vec<u8> = Vec::new();
        let mut i: usize = 0;
        while i < 32
            invariant
                bytes@.len() == 32,
                0 <= i <= 32,
                i <= 16 ==> low@ == bytes@.subrange(0, i as int) && high@.len() == 0,
                i > 16 ==> low@ == bytes@.subrange(0, 16) && high@ == bytes@.subrange(16, i as int),
            decreases 32 - i,
        {
            if i < 16 {
                low.push(bytes[i]);
                assert(low@ =~= bytes@.subrange(0, i + 1));
            } else {
                high.push(bytes[i]);
                assert(high@ =~= bytes@.subrange(16, i + 1));
            }
            i += 1;
        }
        let lo = u128_from_le(&low);
        let hi = u128_from_le(&high);
        proof {
            assert(bytes@ =~= low@ + high@);
            lemma_le_concat(low@, high@);
            reveal_with_fuel(pow256, 17);
            assert(pow256(16) == two128());
        }
        Felt { lo, hi }
    }
}

} // verus!
