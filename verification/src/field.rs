use vstd::arithmetic::div_mod::{
    lemma_add_mod_noop, lemma_mod_add_multiples_vanish, lemma_mod_bound, lemma_mod_twice,
    lemma_mul_mod_noop_general, lemma_small_mod,
};
use vstd::arithmetic::mul::lemma_mul_upper_bound;
use vstd::prelude::*;

verus! {

/// A prime field, seen through the canonical value of each element.
pub trait JoltField: Copy + Sized {
    /// The order of the field.
    spec fn modulus() -> nat;

    /// The canonical value of the element, below the modulus.
    spec fn value(&self) -> nat;

    /// The modulus exceeds one and every element lies below it.
    proof fn lemma_field_facts(x: &Self)
        ensures
            Self::modulus() > 1,
            x.value() < Self::modulus(),
    ;

    /// The additive identity.
    fn zero() -> (r: Self)
        ensures
            r.value() == 0,
    ;

    /// The element `n` reduced modulo the order; every `u64` has one.
    fn from_u64(n: u64) -> (r: Option<Self>)
        ensures
            r matches Some(x) && x.value() == n as nat % Self::modulus(),
    ;

    /// The sum of two elements.
    fn field_add(&self, other: &Self) -> (r: Self)
        ensures
            r.value() == (self.value() + other.value()) % Self::modulus(),
    ;

    /// The difference of two elements.
    fn field_sub(&self, other: &Self) -> (r: Self)
        ensures
            r.value() as int == (self.value() - other.value()) % (Self::modulus() as int),
    ;

    /// The product of two elements.
    fn field_mul(&self, other: &Self) -> (r: Self)
        ensures
            r.value() == (self.value() * other.value()) % Self::modulus(),
    ;
}

/// The order of the Goldilocks field, 2^64 - 2^32 + 1.
pub const GOLDILOCKS_MODULUS: u64 = 0xFFFF_FFFF_0000_0001;

/// An element of the Goldilocks prime field.
#[derive(Clone, Copy, Debug, PartialEq, Eq)]
pub struct Goldilocks(u64);

impl Goldilocks {
    /// The canonical value of the element.
    pub fn to_canonical_u64(&self) -> (r: u64)
        ensures
            r == self.value(),
    {
        self.0 % GOLDILOCKS_MODULUS
    }
}

impl JoltField for Goldilocks {
    open spec fn modulus() -> nat {
        GOLDILOCKS_MODULUS as nat
    }

    closed spec fn value(&self) -> nat {
        self.0 as nat % (GOLDILOCKS_MODULUS as nat)
    }

    proof fn lemma_field_facts(x: &Self) {
        lemma_mod_bound(x.0 as int, GOLDILOCKS_MODULUS as int);
    }

    fn zero() -> (r: Self) {
        Goldilocks(0)
    }

    fn from_u64(n: u64) -> (r: Option<Self>) {
        let v = n % GOLDILOCKS_MODULUS;
        proof {
            lemma_mod_twice(n as int, GOLDILOCKS_MODULUS as int);
        }
        Some(Goldilocks(v))
    }

    fn field_add(&self, other: &Self) -> (r: Self) {
        let p = GOLDILOCKS_MODULUS as u128;
        let a = self.0 as u128 % p;
        let b = other.0 as u128 % p;
        let s = (a + b) % p;
        proof {
            lemma_mod_bound((a + b) as int, p as int);
            lemma_small_mod(s as nat, p as nat);
        }
        Goldilocks(s as u64)
    }

    fn field_sub(&self, other: &Self) -> (r: Self) {
        let p = GOLDILOCKS_MODULUS as u128;
        let a = self.0 as u128 % p;
        let b = other.0 as u128 % p;
        let d = (a + p - b) % p;
        proof {
            lemma_mod_bound((a + p - b) as int, p as int);
            lemma_small_mod(d as nat, p as nat);
            lemma_mod_add_multiples_vanish(a - b, p as int);
        }
        Goldilocks(d as u64)
    }

    fn field_mul(&self, other: &Self) -> (r: Self) {
        let p = GOLDILOCKS_MODULUS as u128;
        let a = self.0 as u128 % p;
        let b = other.0 as u128 % p;
        proof {
            lemma_mul_upper_bound(a as int, p as int, b as int, p as int);
            assert(p * p < 0x1_0000_0000_0000_0000_0000_0000_0000_0000) by (nonlinear_arith)
                requires p == 0xFFFF_FFFF_0000_0001u128;
        }
        let m = (a * b) % p;
        proof {
            lemma_mod_bound((a * b) as int, p as int);
            lemma_small_mod(m as nat, p as nat);
            lemma_mul_mod_noop_general(self.0 as int, other.0 as int, p as int);
        }
        Goldilocks(m as u64)
    }
}

} // verus!
