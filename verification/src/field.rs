//! Arithmetic in the secp256k1 scalar field.
//!
//! A `Scalar` holds the canonical 32-byte big-endian encoding of a field
//! element; its mathematical value is `be_val` of those bytes, always below
//! the field order.  The modular operations themselves are performed by the
//! `k256` crate behind trusted wrappers whose contracts state the arithmetic
//! exactly, so that everything built on top can be verified.

use k256::elliptic_curve::PrimeField;
use vstd::prelude::*;
use vstd::arithmetic::div_mod::{
    lemma_add_mod_noop, lemma_fundamental_div_mod_converse, lemma_mod_twice, lemma_small_mod,
    lemma_mul_mod_noop_general, lemma_mul_mod_noop_left, lemma_mul_mod_noop_right,
};
use vstd::arithmetic::mul::{lemma_mul_is_associative, lemma_mul_is_commutative};

verus! {

/// The order of the secp256k1 scalar field (a prime); all scalar arithmetic
/// is performed modulo this number.
pub open spec fn field_order() -> nat {
    0xFFFFFFFFFFFFFFFFFFFFFFFFFFFFFFFEBAAEDCE6AF48A03BBFD25E8CD0364141nat
}

/// The value of a big-endian byte string, most significant byte first.
pub open spec fn be_val(s: Seq<u8>) -> nat
    decreases s.len(),
{
    if s.len() == 0 {
        0
    } else {
        be_val(s.drop_last()) * 256 + (s.last() as nat)
    }
}

/// `(a + b)` modulo the field order.
pub open spec fn add_mod(a: nat, b: nat) -> nat {
    (a + b) % field_order()
}

/// `(a * b)` modulo the field order.
pub open spec fn mul_mod(a: nat, b: nat) -> nat {
    (a * b) % field_order()
}

/// `(a - b)` modulo the field order, for operands below the order.
pub open spec fn sub_mod(a: nat, b: nat) -> nat
    recommends
        a < field_order(),
        b < field_order(),
{
    (((a + field_order() - b) as int) % (field_order() as int)) as nat
}

/// `-a` modulo the field order.
pub open spec fn neg_mod(a: nat) -> nat
    recommends
        a < field_order(),
{
    sub_mod(0, a)
}

/// The multiplicative inverse of `a` modulo the field order, where one
/// exists; pinned down by `lemma_inverse_unique`.
pub open spec fn field_inv(a: nat) -> nat {
    choose|b: nat| b < field_order() && #[trigger] ((a * b) % field_order()) == 1
}

/// An element of the secp256k1 scalar field, held as its canonical 32-byte
/// big-endian encoding.
#[derive(Debug, PartialEq, Eq)]
pub struct Scalar {
    bytes: Vec<u8>,
}

impl View for Scalar {
    type V = Seq<u8>;

    closed spec fn view(&self) -> Seq<u8> {
        self.bytes@
    }
}

impl Clone for Scalar {
    fn clone(&self) -> (r: Self)
        ensures
            r@ == self@,
    {
        Scalar { bytes: copy_bytes(&self.bytes) }
    }
}

/// A byte-for-byte copy of a byte vector.
fn copy_bytes(v: &Vec<u8>) -> (r: Vec<u8>)
    ensures
        r@ == v@,
{
    let mut r: Vec<u8> = Vec::new();
    let mut i: usize = 0;
    while i < v.len()
        invariant
            i <= v@.len(),
            r@ == v@.subrange(0, i as int),
        decreases v@.len() - i,
    {
        r.push(v[i]);
        proof {
            assert(r@ =~= v@.subrange(0, i + 1));
        }
        i = i + 1;
    }
    proof {
        assert(r@ =~= v@);
    }
    r
}

impl Scalar {
    /// The field element this scalar encodes.
    pub open spec fn val(&self) -> nat {
        be_val(self@)
    }

    /// Canonical form: exactly 32 bytes, value below the field order.
    pub open spec fn wf(&self) -> bool {
        self@.len() == 32 && self.val() < field_order()
    }

    /// The additive identity.
    pub fn zero() -> (r: Scalar)
        ensures
            r.wf(),
            r.val() == 0,
    {
        let mut bytes: Vec<u8> = Vec::new();
        let mut i: usize = 0;
        while i < 32
            invariant
                i <= 32,
                bytes@.len() == i,
                be_val(bytes@) == 0,
            decreases 32 - i,
        {
            let ghost prev = bytes@;
            bytes.push(0u8);
            proof {
                assert(bytes@.drop_last() =~= prev);
            }
            i = i + 1;
        }
        Scalar { bytes }
    }

    /// The multiplicative identity.
    pub fn one() -> (r: Scalar)
        ensures
            r.wf(),
            r.val() == 1,
    {
        let mut bytes: Vec<u8> = Vec::new();
        let mut i: usize = 0;
        while i < 31
            invariant
                i <= 31,
                bytes@.len() == i,
                be_val(bytes@) == 0,
            decreases 31 - i,
        {
            let ghost prev = bytes@;
            bytes.push(0u8);
            proof {
                assert(bytes@.drop_last() =~= prev);
            }
            i = i + 1;
        }
        let ghost prev = bytes@;
        bytes.push(1u8);
        proof {
            assert(bytes@.drop_last() =~= prev);
        }
        Scalar { bytes }
    }

    /// The scalar with the given small value.
    pub fn from_u64(u: u64) -> (r: Scalar)
        ensures
            r.wf(),
            r.val() == u as nat,
    {
        k256_from_u64(u)
    }

    /// A scalar drawn uniformly at random from the field.
    pub fn random() -> (r: Scalar)
        ensures
            r.wf(),
    {
        k256_random()
    }

    /// Field addition.
    pub fn add(&self, rhs: &Scalar) -> (r: Scalar)
        requires
            self.wf(),
            rhs.wf(),
        ensures
            r.wf(),
            r.val() == add_mod(self.val(), rhs.val()),
    {
        k256_add(self, rhs)
    }

    /// Field subtraction.
    pub fn sub(&self, rhs: &Scalar) -> (r: Scalar)
        requires
            self.wf(),
            rhs.wf(),
        ensures
            r.wf(),
            r.val() == sub_mod(self.val(), rhs.val()),
    {
        k256_sub(self, rhs)
    }

    /// Field multiplication.
    pub fn mul(&self, rhs: &Scalar) -> (r: Scalar)
        requires
            self.wf(),
            rhs.wf(),
        ensures
            r.wf(),
            r.val() == mul_mod(self.val(), rhs.val()),
    {
        k256_mul(self, rhs)
    }

    /// Multiplicative inverse; `None` exactly on the zero scalar.
    pub fn invert(&self) -> (r: Option<Scalar>)
        requires
            self.wf(),
        ensures
            (match r {
                Some(inv) => {
                    &&& self.val() != 0
                    &&& inv.wf()
                    &&& (self.val() * inv.val()) % field_order() == 1
                    &&& inv.val() == field_inv(self.val())
                },
                None => self.val() == 0,
            }),
    {
        let r = k256_invert(self);
        proof {
            if let Some(ref inv) = r {
                assert(exists|b: nat|
                    b < field_order() && #[trigger] ((self.val() * b) % field_order()) == 1) by {
                    assert(inv.val() < field_order()
                        && (self.val() * inv.val()) % field_order() == 1);
                }
                lemma_inverse_unique(self.val(), inv.val(), field_inv(self.val()));
            }
        }
        r
    }

    /// The canonical 32-byte big-endian encoding.
    pub fn to_bytes(&self) -> (r: Vec<u8>)
        ensures
            r@ == self@,
    {
        copy_bytes(&self.bytes)
    }
}

/// An inverse modulo the field order is unique below the order.
pub proof fn lemma_inverse_unique(a: nat, b1: nat, b2: nat)
    requires
        b1 < field_order(),
        b2 < field_order(),
        (a * b1) % field_order() == 1,
        (a * b2) % field_order() == 1,
    ensures
        b1 == b2,
{
    let n = field_order() as int;
    let ai = a as int;
    let b1i = b1 as int;
    let b2i = b2 as int;
    // b1 == (b1 * (a * b2)) % n == ((a * b1) * b2) % n == b2
    lemma_mul_mod_noop_right(b1i, ai * b2i, n);
    assert((b1i * ((ai * b2i) % n)) % n == (b1i * (ai * b2i)) % n);
    lemma_small_mod(b1, field_order());
    assert((b1i * 1) % n == b1i);
    lemma_mul_is_associative(b1i, ai, b2i);
    lemma_mul_is_commutative(b1i, ai);
    assert(b1i * (ai * b2i) == (ai * b1i) * b2i);
    lemma_mul_mod_noop_left(ai * b1i, b2i, n);
    assert(((ai * b1i) % n * b2i) % n == ((ai * b1i) * b2i) % n);
    lemma_small_mod(b2, field_order());
    assert((1 * b2i) % n == b2i);
}

/// `a` and `b` are congruent modulo the field order.
pub open spec fn cong(a: int, b: int) -> bool {
    a % (field_order() as int) == b % (field_order() as int)
}

/// Reducing modulo the field order preserves congruence.
pub proof fn lemma_cong_mod(a: int)
    ensures
        cong(a % (field_order() as int), a),
{
    lemma_mod_twice(a, field_order() as int);
}

/// Congruence is preserved by addition.
pub proof fn lemma_cong_add(a: int, b: int, c: int, d: int)
    requires
        cong(a, b),
        cong(c, d),
    ensures
        cong(a + c, b + d),
{
    let n = field_order() as int;
    lemma_add_mod_noop(a, c, n);
    lemma_add_mod_noop(b, d, n);
}

/// Congruence is preserved by multiplication.
pub proof fn lemma_cong_mul(a: int, b: int, c: int, d: int)
    requires
        cong(a, b),
        cong(c, d),
    ensures
        cong(a * c, b * d),
{
    let n = field_order() as int;
    lemma_mul_mod_noop_general(a, c, n);
    lemma_mul_mod_noop_general(b, d, n);
}

/// An element has at most one inverse up to congruence.
pub proof fn lemma_cong_cancel_inverse(c: int, u: int, v: int)
    requires
        cong(c * u, 1),
        cong(c * v, 1),
    ensures
        cong(u, v),
{
    // u == u * (c * v) == (c * u) * v == v, up to congruence
    lemma_cong_mul(u, u, c * v, 1);
    assert(u * (c * v) == (c * u) * v) by (nonlinear_arith);
    lemma_cong_mul(c * u, 1, v, v);
}

/// Equal-length byte strings with the same big-endian value are equal: a
/// value below `256^len` has exactly one big-endian encoding of that length.
pub proof fn lemma_be_val_injective(a: Seq<u8>, b: Seq<u8>)
    requires
        a.len() == b.len(),
        be_val(a) == be_val(b),
    ensures
        a == b,
    decreases a.len(),
{
    if a.len() == 0 {
        assert(a =~= b);
    } else {
        lemma_fundamental_div_mod_converse(
            be_val(a) as int,
            256,
            be_val(a.drop_last()) as int,
            a.last() as int,
        );
        lemma_fundamental_div_mod_converse(
            be_val(b) as int,
            256,
            be_val(b.drop_last()) as int,
            b.last() as int,
        );
        assert(a.last() == b.last());
        assert(be_val(a.drop_last()) == be_val(b.drop_last()));
        lemma_be_val_injective(a.drop_last(), b.drop_last());
        assert(a =~= a.drop_last().push(a.last()));
        assert(b =~= b.drop_last().push(b.last()));
    }
}

/// Relies on `k256::Scalar`: `From<u64>` embeds the integer (which is below
/// the field order) and `to_bytes` returns the canonical big-endian encoding.
#[verifier::external_body]
fn k256_from_u64(u: u64) -> (r: Scalar)
    ensures
        r.wf(),
        r.val() == u as nat,
{
    let s = k256::Scalar::from(u);
    Scalar { bytes: s.to_bytes().to_vec() }
}

/// Relies on `k256::Scalar::generate_vartime`: rejection sampling yields a
/// scalar below the field order, encoded canonically by `to_bytes`.
#[verifier::external_body]
fn k256_random() -> (r: Scalar)
    ensures
        r.wf(),
{
    let mut rng = rand::rngs::OsRng;
    let s = k256::Scalar::generate_vartime(&mut rng);
    Scalar { bytes: s.to_bytes().to_vec() }
}

/// Relies on `k256::Scalar::add` computing `self + rhs` modulo the field
/// order, with `from_repr`/`to_bytes` converting the canonical encodings.
#[verifier::external_body]
fn k256_add(a: &Scalar, b: &Scalar) -> (r: Scalar)
    requires
        a.wf(),
        b.wf(),
    ensures
        r.wf(),
        r.val() == add_mod(a.val(), b.val()),
{
    let xa = k256::Scalar::from_repr(k256::FieldBytes::clone_from_slice(&a.bytes)).unwrap();
    let xb = k256::Scalar::from_repr(k256::FieldBytes::clone_from_slice(&b.bytes)).unwrap();
    Scalar { bytes: (xa + xb).to_bytes().to_vec() }
}

/// Relies on `k256::Scalar::sub` computing `self - rhs` modulo the field
/// order, with `from_repr`/`to_bytes` converting the canonical encodings.
#[verifier::external_body]
fn k256_sub(a: &Scalar, b: &Scalar) -> (r: Scalar)
    requires
        a.wf(),
        b.wf(),
    ensures
        r.wf(),
        r.val() == sub_mod(a.val(), b.val()),
{
    let xa = k256::Scalar::from_repr(k256::FieldBytes::clone_from_slice(&a.bytes)).unwrap();
    let xb = k256::Scalar::from_repr(k256::FieldBytes::clone_from_slice(&b.bytes)).unwrap();
    Scalar { bytes: (xa - xb).to_bytes().to_vec() }
}

/// Relies on `k256::Scalar::mul` computing `self * rhs` modulo the field
/// order, with `from_repr`/`to_bytes` converting the canonical encodings.
#[verifier::external_body]
fn k256_mul(a: &Scalar, b: &Scalar) -> (r: Scalar)
    requires
        a.wf(),
        b.wf(),
    ensures
        r.wf(),
        r.val() == mul_mod(a.val(), b.val()),
{
    let xa = k256::Scalar::from_repr(k256::FieldBytes::clone_from_slice(&a.bytes)).unwrap();
    let xb = k256::Scalar::from_repr(k256::FieldBytes::clone_from_slice(&b.bytes)).unwrap();
    Scalar { bytes: (xa * xb).to_bytes().to_vec() }
}

/// Relies on `k256::Scalar::invert`: the result is `None` exactly on zero and
/// otherwise the multiplicative inverse modulo the field order.
#[verifier::external_body]
fn k256_invert(a: &Scalar) -> (r: Option<Scalar>)
    requires
        a.wf(),
    ensures
        (match r {
            Some(inv) => a.val() != 0 && inv.wf()
                && (a.val() * inv.val()) % field_order() == 1,
            None => a.val() == 0,
        }),
{
    let xa = k256::Scalar::from_repr(k256::FieldBytes::clone_from_slice(&a.bytes)).unwrap();
    let inv: Option<k256::Scalar> = xa.invert().into();
    match inv {
        Some(s) => Some(Scalar { bytes: s.to_bytes().to_vec() }),
        None => None,
    }
}

/// Relies on `k256::Scalar`'s `Reduce<U256>` impl: the big-endian value of
/// the 32 bytes, reduced modulo the field order (a single conditional
/// subtraction suffices because 2^256 is below twice the order).
#[verifier::external_body]
fn k256_reduce(bytes: &Vec<u8>) -> (r: Scalar)
    requires
        bytes@.len() == 32,
    ensures
        r.wf(),
        r.val() == be_val(bytes@) % field_order(),
{
    let arr = k256::FieldBytes::clone_from_slice(bytes);
    let s = <k256::Scalar as k256::elliptic_curve::ops::Reduce<k256::U256>>::reduce_bytes(&arr);
    Scalar { bytes: s.to_bytes().to_vec() }
}

/// A scalar reduced from arbitrary 32-byte big-endian input.
pub fn reduce_bytes(bytes: &Vec<u8>) -> (r: Scalar)
    requires
        bytes@.len() == 32,
    ensures
        r.wf(),
        r.val() == be_val(bytes@) % field_order(),
{
    k256_reduce(bytes)
}

} // verus!
