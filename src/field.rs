//! Elements of the BN254 scalar field, held as four little-endian limbs.
//! Arithmetic is done by arkworks; each call sits behind a wrapper whose
//! contract states the result modulo the field's prime.
use ark_bn254::Fr;
use ark_ff::{Field, PrimeField};
use ark_std::UniformRand;
use vstd::arithmetic::div_mod::{
    lemma_mod_multiples_vanish, lemma_mod_sub_multiples_vanish, lemma_mul_mod_noop_left, lemma_mul_mod_noop_right, lemma_small_mod,
};
use vstd::prelude::*;

verus! {

/// The order of the BN254 scalar field.
pub open spec fn modulus() -> int {
    limbs_value(0x43e1f593f0000001, 0x2833e84879b97091, 0xb85045b68181585d, 0x30644e72e131a029)
}

/// The order is odd and exceeds every 64-bit value.
pub proof fn lemma_modulus_facts()
    ensures
        modulus() > 0x1_0000_0000_0000_0000,
        modulus() % 2 == 1,
{
}

/// The integer that four little-endian 64-bit limbs spell.
pub open spec fn limbs_value(l0: u64, l1: u64, l2: u64, l3: u64) -> int {
    l0 as int + l1 as int * 0x1_0000_0000_0000_0000 + l2 as int
        * 0x1_0000_0000_0000_0000_0000_0000_0000_0000 + l3 as int
        * 0x1_0000_0000_0000_0000_0000_0000_0000_0000_0000_0000_0000_0000
}

/// A field element. The limbs may spell any integer; the element is that
/// integer reduced modulo the field's order. Every operation here returns
/// the canonical (reduced) limbs.
#[derive(Clone, Copy, Debug)]
pub struct Fe {
    pub l0: u64,
    pub l1: u64,
    pub l2: u64,
    pub l3: u64,
}

impl View for Fe {
    type V = int;

    open spec fn view(&self) -> int {
        limbs_value(self.l0, self.l1, self.l2, self.l3) % modulus()
    }
}

/// An element's value is a residue.
pub proof fn lemma_fe_range(x: Fe)
    ensures
        0 <= x@ < modulus(),
{
}

/// Relies on `PrimeField::from_le_bytes_mod_order`, `+` on `Fr` and
/// `PrimeField::into_bigint`: the sum modulo the field's order, in canonical limbs.
#[verifier::external_body]
pub(crate) fn fe_add(a: &Fe, b: &Fe) -> (r: Fe)
    ensures
        r@ == (a@ + b@) % modulus(),
{
    let x = Fr::from_le_bytes_mod_order(&[a.l0.to_le_bytes(), a.l1.to_le_bytes(), a.l2.to_le_bytes(), a.l3.to_le_bytes()].concat());
    let y = Fr::from_le_bytes_mod_order(&[b.l0.to_le_bytes(), b.l1.to_le_bytes(), b.l2.to_le_bytes(), b.l3.to_le_bytes()].concat());
    let s = (x + y).into_bigint().0;
    Fe { l0: s[0], l1: s[1], l2: s[2], l3: s[3] }
}

/// Relies on `PrimeField::from_le_bytes_mod_order`, `*` on `Fr` and
/// `PrimeField::into_bigint`: the product modulo the field's order.
#[verifier::external_body]
pub(crate) fn fe_mul(a: &Fe, b: &Fe) -> (r: Fe)
    ensures
        r@ == (a@ * b@) % modulus(),
{
    let x = Fr::from_le_bytes_mod_order(&[a.l0.to_le_bytes(), a.l1.to_le_bytes(), a.l2.to_le_bytes(), a.l3.to_le_bytes()].concat());
    let y = Fr::from_le_bytes_mod_order(&[b.l0.to_le_bytes(), b.l1.to_le_bytes(), b.l2.to_le_bytes(), b.l3.to_le_bytes()].concat());
    let s = (x * y).into_bigint().0;
    Fe { l0: s[0], l1: s[1], l2: s[2], l3: s[3] }
}

/// Relies on `Field::inverse` for `Fr`: `None` exactly for zero, otherwise the
/// element whose product with the argument is one.
#[verifier::external_body]
pub(crate) fn fe_inverse(a: &Fe) -> (r: Option<Fe>)
    ensures
        r.is_some() == (a@ != 0),
        r matches Some(x) ==> (x@ * a@) % modulus() == 1,
{
    let x = Fr::from_le_bytes_mod_order(&[a.l0.to_le_bytes(), a.l1.to_le_bytes(), a.l2.to_le_bytes(), a.l3.to_le_bytes()].concat());
    match x.inverse() {
        Some(v) => {
            let s = v.into_bigint().0;
            Some(Fe { l0: s[0], l1: s[1], l2: s[2], l3: s[3] })
        },
        None => None,
    }
}

/// Relies on `==` on `Fr`, which holds exactly for equal field elements.
#[verifier::external_body]
fn fe_eq(a: &Fe, b: &Fe) -> (r: bool)
    ensures
        r == (a@ == b@),
{
    let x = Fr::from_le_bytes_mod_order(&[a.l0.to_le_bytes(), a.l1.to_le_bytes(), a.l2.to_le_bytes(), a.l3.to_le_bytes()].concat());
    let y = Fr::from_le_bytes_mod_order(&[b.l0.to_le_bytes(), b.l1.to_le_bytes(), b.l2.to_le_bytes(), b.l3.to_le_bytes()].concat());
    x == y
}

/// Relies on `>` on `Fr`, which orders elements by their canonical
/// representatives `0..modulus`.
#[verifier::external_body]
pub(crate) fn fe_gt(a: &Fe, b: &Fe) -> (r: bool)
    ensures
        r == (a@ > b@),
{
    let x = Fr::from_le_bytes_mod_order(&[a.l0.to_le_bytes(), a.l1.to_le_bytes(), a.l2.to_le_bytes(), a.l3.to_le_bytes()].concat());
    let y = Fr::from_le_bytes_mod_order(&[b.l0.to_le_bytes(), b.l1.to_le_bytes(), b.l2.to_le_bytes(), b.l3.to_le_bytes()].concat());
    x > y
}

/// Relies on `UniformRand::rand` for `Fr` with the thread-local generator of
/// `rand`: a uniformly drawn element, in canonical limbs.
#[verifier::external_body]
pub(crate) fn fe_random() -> (r: Fe) {
    let s = Fr::rand(&mut rand::thread_rng()).into_bigint().0;
    Fe { l0: s[0], l1: s[1], l2: s[2], l3: s[3] }
}

/// Relies on `Rng::gen_range` of `rand` over `0..2`: a value below two.
#[verifier::external_body]
pub(crate) fn random_bit() -> (r: u64)
    ensures
        r < 2,
{
    rand::Rng::gen_range(&mut rand::thread_rng(), 0..2u64)
}

impl Fe {
    /// The element that a 64-bit integer names.
    pub fn from_u64(x: u64) -> (r: Fe)
        ensures
            r@ == x as int,
    {
        proof {
            lemma_modulus_facts();
            lemma_small_mod(x as nat, modulus() as nat);
        }
        Fe { l0: x, l1: 0, l2: 0, l3: 0 }
    }

    pub fn zero() -> (r: Fe)
        ensures
            r@ == 0,
    {
        Fe::from_u64(0)
    }

    pub fn one() -> (r: Fe)
        ensures
            r@ == 1,
    {
        Fe::from_u64(1)
    }
}

impl PartialEq for Fe {
    fn eq(&self, o: &Fe) -> (r: bool) {
        fe_eq(self, o)
    }
}

impl vstd::std_specs::cmp::PartialEqSpecImpl for Fe {
    open spec fn obeys_eq_spec() -> bool {
        true
    }

    open spec fn eq_spec(&self, o: &Fe) -> bool {
        self@ == o@
    }
}

// Field operations on `Fe` as std's and num-traits' operator traits, so that
// nalgebra's matrix operations can use them. Each is the wrapper above; the
// operator forms carry no specification of their own.
impl core::ops::Add for Fe {
    type Output = Fe;

    fn add(self, o: Fe) -> (r: Fe) {
        fe_add(&self, &o)
    }
}

impl vstd::std_specs::ops::AddSpecImpl for Fe {
    open spec fn obeys_add_spec() -> bool {
        false
    }

    open spec fn add_req(self, rhs: Fe) -> bool {
        true
    }

    open spec fn add_spec(self, rhs: Fe) -> Fe {
        self
    }
}

impl core::ops::AddAssign for Fe {
    fn add_assign(&mut self, o: Fe) {
        *self = fe_add(self, &o);
    }
}

impl core::ops::Mul for Fe {
    type Output = Fe;

    fn mul(self, o: Fe) -> (r: Fe) {
        fe_mul(&self, &o)
    }
}

impl vstd::std_specs::ops::MulSpecImpl for Fe {
    open spec fn obeys_mul_spec() -> bool {
        false
    }

    open spec fn mul_req(self, rhs: Fe) -> bool {
        true
    }

    open spec fn mul_spec(self, rhs: Fe) -> Fe {
        self
    }
}

impl core::ops::MulAssign for Fe {
    fn mul_assign(&mut self, o: Fe) {
        *self = fe_mul(self, &o);
    }
}

impl ark_std::Zero for Fe {
    fn zero() -> Fe {
        Fe::from_u64(0)
    }

    fn is_zero(&self) -> bool {
        fe_eq(self, &Fe::from_u64(0))
    }
}

impl ark_std::One for Fe {
    fn one() -> Fe {
        Fe::from_u64(1)
    }
}

/// `2^i` as an integer.
pub open spec fn pow2(i: nat) -> int
    decreases i,
{
    if i == 0 {
        1
    } else {
        2 * pow2((i - 1) as nat)
    }
}

/// `2^i` in the field.
pub open spec fn pow2_mod(i: nat) -> int {
    pow2(i) % modulus()
}

/// The multiplicative inverse of `a` in the field, where one exists.
pub open spec fn inv_of(a: int) -> int {
    choose|x: int| 0 <= x < modulus() && #[trigger] ((x * a) % modulus()) == 1
}

/// No power of two vanishes in the field: its order is odd.
pub proof fn lemma_pow2_nonzero(i: nat)
    ensures
        pow2_mod(i) != 0,
    decreases i,
{
    lemma_modulus_facts();
    let p = modulus();
    if i == 0 {
        lemma_small_mod(1, p as nat);
    } else {
        lemma_pow2_nonzero((i - 1) as nat);
        let x = pow2((i - 1) as nat) % p;
        lemma_mul_mod_noop_right(2, pow2((i - 1) as nat), p);
        assert(0 < x < p);
        if 2 * x < p {
            lemma_small_mod((2 * x) as nat, p as nat);
        } else {
            lemma_mod_sub_multiples_vanish(2 * x, p);
            lemma_small_mod((2 * x - p) as nat, p as nat);
        }
    }
}

/// `((p + 1) / 2)^i` reduced modulo `p`: the inverse of `2^i`.
pub open spec fn half_pow_mod(i: nat) -> int
    decreases i,
{
    if i == 0 {
        1
    } else {
        (half_pow_mod((i - 1) as nat) * ((modulus() + 1) / 2)) % modulus()
    }
}

/// Every power of two has an inverse in the field.
pub proof fn lemma_pow2_invertible(i: nat)
    ensures
        0 <= inv_of(pow2_mod(i)) < modulus(),
        (inv_of(pow2_mod(i)) * pow2_mod(i)) % modulus() == 1,
{
    lemma_half_pow_inverts(i);
    lemma_inverse_unique(pow2_mod(i), half_pow_mod(i));
}

proof fn lemma_half_pow_inverts(i: nat)
    ensures
        0 <= half_pow_mod(i) < modulus(),
        (half_pow_mod(i) * pow2_mod(i)) % modulus() == 1,
    decreases i,
{
    let p = modulus();
    lemma_modulus_facts();
    lemma_small_mod(1, p as nat);
    if i > 0 {
        let j = (i - 1) as nat;
        lemma_half_pow_inverts(j);
        let h = (p + 1) / 2;
        let x = half_pow_mod(j);
        let y = pow2(j);
        assert(2 * h == p + 1);
        // (x*h % p) * (2*y % p) % p == (x*h) * (2*y) % p
        lemma_mul_mod_noop_left(x * h, (2 * y) % p, p);
        lemma_mul_mod_noop_right(x * h, 2 * y, p);
        assert((x * h) * (2 * y) == (x * y) * (p + 1)) by (nonlinear_arith)
            requires
                2 * h == p + 1,
        ;
        assert((x * y) * (p + 1) == (x * y) * p + x * y) by (nonlinear_arith);
        lemma_mod_multiples_vanish(x * y, x * y, p);
        assert((p * (x * y) + x * y) % p == (x * y) % p);
        assert((x * y) * p == p * (x * y)) by (nonlinear_arith);
        lemma_mul_mod_noop_right(x, y, p);
    }
}

/// An inverse is unique: any `x` in range with `x * a == 1` is `inv_of(a)`.
pub proof fn lemma_inverse_unique(a: int, x: int)
    requires
        0 <= x < modulus(),
        (x * a) % modulus() == 1,
    ensures
        inv_of(a) == x,
{
    let p = modulus();
    let y = inv_of(a);
    assert(0 <= y < p && (y * a) % p == 1);
    lemma_mul_mod_noop_right(y, x * a, p);
    lemma_mul_mod_noop_left(y * a, x, p);
    assert(y * (x * a) == (y * a) * x) by (nonlinear_arith);
    lemma_small_mod(y as nat, p as nat);
    lemma_small_mod(x as nat, p as nat);
}

} // verus!
