//! Elements of the scalar field of the Ristretto group, held as their
//! 32-byte little-endian encoding. Arithmetic is carried out by
//! `curve25519_dalek::scalar::Scalar`.
use curve25519_dalek::scalar::Scalar;
use vstd::prelude::*;

verus! {

/// The order of the prime-order group: 2^252 + 27742317777372353535851937790883648493.
pub open spec fn group_order() -> int {
    9223372036854775808int * 9223372036854775808 * 9223372036854775808 * 9223372036854775808
        + 27742317777372353535851937790883648493int
}

/// The unsigned integer encoded little-endian by `b`.
pub open spec fn le_value(b: Seq<u8>) -> nat
    decreases b.len(),
{
    if b.len() == 0 {
        0
    } else {
        b[0] as nat + 256 * le_value(b.subrange(1, b.len() as int))
    }
}

/// The 32-byte little-endian encoding of `n`.
pub open spec fn le_bytes32(n: int) -> Seq<u8> {
    Seq::new(32, |i: int| ((n / vstd::arithmetic::power::pow(256, i as nat)) % 256) as u8)
}

/// Reduction into the canonical range `[0, group_order())`.
pub open spec fn modl(x: int) -> int {
    x % group_order()
}

/// A field element, encoded as 32 little-endian bytes. Any encoding is
/// accepted; it stands for its value reduced modulo the group order.
#[derive(Clone, Copy, Debug)]
pub struct Fe {
    pub bytes: [u8; 32],
}

impl View for Fe {
    type V = int;

    open spec fn view(&self) -> int {
        modl(le_value(self.bytes@) as int)
    }
}

/// Relies on `Scalar::from(u64)`: a `u64` is below the group order, so the
/// scalar holds exactly that integer.
#[verifier::external_body]
fn scalar_from_u64(n: u64) -> (r: Fe)
    ensures
        r@ == n as int,
{
    Fe { bytes: Scalar::from(n).to_bytes() }
}

/// Relies on `Scalar` addition, which is addition modulo the group order.
#[verifier::external_body]
fn scalar_add(a: &Fe, b: &Fe) -> (r: Fe)
    ensures
        r@ == modl(a@ + b@),
{
    let x = Scalar::from_bytes_mod_order(a.bytes);
    let y = Scalar::from_bytes_mod_order(b.bytes);
    Fe { bytes: (x + y).to_bytes() }
}

/// Relies on `Scalar` subtraction, which is subtraction modulo the group order.
#[verifier::external_body]
fn scalar_sub(a: &Fe, b: &Fe) -> (r: Fe)
    ensures
        r@ == modl(a@ - b@),
{
    let x = Scalar::from_bytes_mod_order(a.bytes);
    let y = Scalar::from_bytes_mod_order(b.bytes);
    Fe { bytes: (x - y).to_bytes() }
}

/// Relies on `Scalar` negation, the additive inverse modulo the group order.
#[verifier::external_body]
fn scalar_neg(a: &Fe) -> (r: Fe)
    ensures
        r@ == modl(-a@),
{
    let x = Scalar::from_bytes_mod_order(a.bytes);
    Fe { bytes: (-x).to_bytes() }
}

/// Relies on `Scalar` multiplication, which is multiplication modulo the
/// group order.
#[verifier::external_body]
fn scalar_mul(a: &Fe, b: &Fe) -> (r: Fe)
    ensures
        r@ == modl(a@ * b@),
{
    let x = Scalar::from_bytes_mod_order(a.bytes);
    let y = Scalar::from_bytes_mod_order(b.bytes);
    Fe { bytes: (x * y).to_bytes() }
}

/// Relies on `Scalar::from_bytes_mod_order`, which reduces a 256-bit
/// little-endian integer modulo the group order, and on `Scalar::to_bytes`,
/// its little-endian encoding.
#[verifier::external_body]
fn scalar_reduce(a: &Fe) -> (r: Fe)
    ensures
        r@ == a@,
        r.bytes@ == le_bytes32(a@),
{
    Fe { bytes: Scalar::from_bytes_mod_order(a.bytes).to_bytes() }
}

/// Relies on `Scalar`'s `==`: two reduced scalars are equal exactly when
/// they stand for the same residue.
#[verifier::external_body]
fn scalar_eq(a: &Fe, b: &Fe) -> (r: bool)
    ensures
        r == (a@ == b@),
{
    Scalar::from_bytes_mod_order(a.bytes) == Scalar::from_bytes_mod_order(b.bytes)
}

/// The group order is positive, so `modl` lands in `[0, group_order())`.
pub proof fn lemma_modl(x: int, y: int)
    ensures
        group_order() > 1,
        0 <= modl(x) < group_order(),
        modl(modl(x)) == modl(x),
        modl(modl(x) + modl(y)) == modl(x + y),
        modl(modl(x) - modl(y)) == modl(x - y),
        modl(modl(x) * modl(y)) == modl(x * y),
        0 <= x < group_order() ==> modl(x) == x,
        modl(0) == 0,
{
    let m = group_order();
    assert(m > 1);
    vstd::arithmetic::div_mod::lemma_small_mod(0, m as nat);
    if 0 <= x < m {
        vstd::arithmetic::div_mod::lemma_small_mod(x as nat, m as nat);
    }
    vstd::arithmetic::div_mod::lemma_mod_bound(x, m);
    vstd::arithmetic::div_mod::lemma_mod_twice(x, m);
    vstd::arithmetic::div_mod::lemma_add_mod_noop(x, y, m);
    vstd::arithmetic::div_mod::lemma_sub_mod_noop(x, y, m);
    vstd::arithmetic::div_mod::lemma_mul_mod_noop_left(x, modl(y), m);
    vstd::arithmetic::div_mod::lemma_mul_mod_noop_right(x, y, m);
}

/// Two integers are congruent exactly when their difference reduces to zero.
pub proof fn lemma_modl_eq_iff(x: int, y: int)
    ensures
        modl(x) == modl(y) <==> modl(x - y) == 0,
{
    lemma_modl(x, y);
    let m = group_order();
    let d = modl(x) - modl(y);
    assert(-m < d < m);
    lemma_modl(d, 0);
    if d > 0 {
        vstd::arithmetic::div_mod::lemma_small_mod(d as nat, m as nat);
    } else if d < 0 {
        vstd::arithmetic::div_mod::lemma_mod_add_multiples_vanish(d, m);
        vstd::arithmetic::div_mod::lemma_small_mod((d + m) as nat, m as nat);
    }
}

/// The value of an element is already reduced.
pub proof fn lemma_view_reduced(f: Fe)
    ensures
        0 <= f@ < group_order(),
        modl(f@) == f@,
{
    lemma_modl(le_value(f.bytes@) as int, 0);
}

impl Fe {
    /// The element holding the integer `n`.
    pub fn from_u64(n: u64) -> (r: Fe)
        ensures
            r@ == n as int,
    {
        scalar_from_u64(n)
    }

    /// The additive identity.
    pub fn zero() -> (r: Fe)
        ensures
            r@ == 0,
    {
        scalar_from_u64(0)
    }

    /// The multiplicative identity.
    pub fn one() -> (r: Fe)
        ensures
            r@ == 1,
    {
        scalar_from_u64(1)
    }

    /// Sum modulo the group order.
    pub fn add(&self, o: &Fe) -> (r: Fe)
        ensures
            r@ == modl(self@ + o@),
    {
        scalar_add(self, o)
    }

    /// Difference modulo the group order.
    pub fn sub(&self, o: &Fe) -> (r: Fe)
        ensures
            r@ == modl(self@ - o@),
    {
        scalar_sub(self, o)
    }

    /// Additive inverse modulo the group order.
    pub fn neg(&self) -> (r: Fe)
        ensures
            r@ == modl(-self@),
    {
        scalar_neg(self)
    }

    /// Product modulo the group order.
    pub fn mul(&self, o: &Fe) -> (r: Fe)
        ensures
            r@ == modl(self@ * o@),
    {
        scalar_mul(self, o)
    }

    /// The canonical encoding of the same element.
    pub fn reduce(&self) -> (r: Fe)
        ensures
            r@ == self@,
            r.bytes@ == le_bytes32(self@),
    {
        scalar_reduce(self)
    }

    /// Equality of the represented field elements (not of the encodings).
    pub fn equals(&self, o: &Fe) -> (r: bool)
        ensures
            r == (self@ == o@),
    {
        scalar_eq(self, o)
    }
}

} // verus!
