//! The base field of the protocol: integers modulo the 64-bit prime
//! `2^64 - 2^32 + 1`, kept in reduced form.

use vstd::prelude::*;

verus! {

use vstd::arithmetic::div_mod::{
    lemma_mod_add_multiples_vanish, lemma_mul_mod_noop_general, lemma_small_mod,
};
use vstd::arithmetic::mul::lemma_mul_upper_bound;
use vstd::arithmetic::power::{
    lemma_pow0, lemma_pow1, lemma_pow_adds, lemma_pow_mod_noop, lemma_pow_multiplies, pow,
};

/// The prime modulus of the base field: `2^64 - 2^32 + 1`.
pub const FIELD_MODULUS: u64 = 18446744069414584321;

/// `a + b` in the field.
pub open spec fn fadd(a: int, b: int) -> int {
    (a + b) % (FIELD_MODULUS as int)
}

/// `a - b` in the field.
pub open spec fn fsub(a: int, b: int) -> int {
    (a - b) % (FIELD_MODULUS as int)
}

/// `a * b` in the field.
pub open spec fn fmul(a: int, b: int) -> int {
    (a * b) % (FIELD_MODULUS as int)
}

/// `b^e` in the field.
pub open spec fn fpow(b: int, e: nat) -> int {
    pow(b, e) % (FIELD_MODULUS as int)
}

/// `a^(p-2)` in the field; for nonzero reduced `a` this is the multiplicative
/// inverse by Fermat's little theorem (which is not itself claimed here).
pub open spec fn finv(a: int) -> int {
    fpow(a, (FIELD_MODULUS - 2) as nat)
}

/// One element of the base field, held reduced: the value is in
/// `[0, FIELD_MODULUS)`.
#[derive(Clone, Copy, PartialEq, Eq, Structural, Debug)]
pub struct Felt {
    v: u64,
}

impl Felt {
    /// The integer this element stands for.
    pub closed spec fn val(self) -> int {
        self.v as int % (FIELD_MODULUS as int)
    }

    #[verifier::type_invariant]
    spec fn reduced(self) -> bool {
        self.v < FIELD_MODULUS
    }

    /// Elements with equal values are equal; comparing with `==` decides
    /// equality of the values they stand for.
    pub fn same_value(self, other: Felt) -> (r: bool)
        ensures
            r <==> self.val() == other.val(),
    {
        proof {
            use_type_invariant(self);
            use_type_invariant(other);
            lemma_small_mod(self.v as nat, FIELD_MODULUS as nat);
            lemma_small_mod(other.v as nat, FIELD_MODULUS as nat);
        }
        self.v == other.v
    }

    /// The element standing for `x`, reduced modulo the field order.
    pub fn new(x: u64) -> (r: Felt)
        ensures
            r.val() == x as int % (FIELD_MODULUS as int),
    {
        let r: u64 = x % FIELD_MODULUS;
        proof {
            lemma_small_mod(r as nat, FIELD_MODULUS as nat);
        }
        Felt { v: r }
    }

    pub fn zero() -> (r: Felt)
        ensures
            r.val() == 0,
    {
        proof {
            lemma_small_mod(0, FIELD_MODULUS as nat);
        }
        Felt { v: 0 }
    }

    pub fn one() -> (r: Felt)
        ensures
            r.val() == 1,
    {
        proof {
            lemma_small_mod(1, FIELD_MODULUS as nat);
        }
        Felt { v: 1 }
    }

    pub fn as_u64(self) -> (r: u64)
        ensures
            r as int == self.val(),
    {
        proof {
            use_type_invariant(self);
            lemma_small_mod(self.v as nat, FIELD_MODULUS as nat);
        }
        self.v
    }

    pub fn add(self, other: Felt) -> (r: Felt)
        ensures
            r.val() == fadd(self.val(), other.val()),
    {
        proof {
            use_type_invariant(self);
            use_type_invariant(other);
        }
        let m: u128 = FIELD_MODULUS as u128;
        let s: u128 = self.v as u128 + other.v as u128;
        let r: u64 = (s % m) as u64;
        proof {
            lemma_small_mod(r as nat, FIELD_MODULUS as nat);
            lemma_small_mod(self.v as nat, FIELD_MODULUS as nat);
            lemma_small_mod(other.v as nat, FIELD_MODULUS as nat);
        }
        Felt { v: r }
    }

    pub fn sub(self, other: Felt) -> (r: Felt)
        ensures
            r.val() == fsub(self.val(), other.val()),
    {
        proof {
            use_type_invariant(self);
            use_type_invariant(other);
            lemma_mod_add_multiples_vanish(self.val() - other.val(), FIELD_MODULUS as int);
        }
        let m: u128 = FIELD_MODULUS as u128;
        let s: u128 = self.v as u128 + m - other.v as u128;
        let r: u64 = (s % m) as u64;
        proof {
            lemma_small_mod(r as nat, FIELD_MODULUS as nat);
            lemma_small_mod(self.v as nat, FIELD_MODULUS as nat);
            lemma_small_mod(other.v as nat, FIELD_MODULUS as nat);
        }
        Felt { v: r }
    }

    pub fn mul(self, other: Felt) -> (r: Felt)
        ensures
            r.val() == fmul(self.val(), other.val()),
    {
        proof {
            use_type_invariant(self);
            use_type_invariant(other);
            lemma_mul_upper_bound(
                self.v as int,
                u64::MAX as int,
                other.v as int,
                u64::MAX as int,
            );
        }
        let m: u128 = FIELD_MODULUS as u128;
        let s: u128 = self.v as u128 * other.v as u128;
        let r: u64 = (s % m) as u64;
        proof {
            lemma_small_mod(r as nat, FIELD_MODULUS as nat);
            lemma_small_mod(self.v as nat, FIELD_MODULUS as nat);
            lemma_small_mod(other.v as nat, FIELD_MODULUS as nat);
        }
        Felt { v: r }
    }

    /// Square-and-multiply exponentiation.
    pub fn exp(self, e: u64) -> (r: Felt)
        ensures
            r.val() == fpow(self.val(), e as nat),
    {
        proof {
            use_type_invariant(self);
        }
        let ghost base0: int = self.val();
        let mut result = Felt::one();
        let mut b = self;
        let mut k = e;
        while k > 0
            invariant
                fmul(result.val(), pow(b.val(), k as nat)) == fpow(base0, e as nat),
            decreases k,
        {
            proof {
                use_type_invariant(result);
                use_type_invariant(b);
            }
            let ghost r0: int = result.val();
            let ghost b0: int = b.val();
            let ghost k0: nat = k as nat;
            if k % 2 == 1 {
                result = result.mul(b);
            }
            b = b.mul(b);
            k = k / 2;
            proof {
                let m: int = FIELD_MODULUS as int;
                let k1: nat = k as nat;
                // pow(b0 * b0 % m, k1) % m == pow(b0, 2 * k1) % m
                lemma_pow_mod_noop(b0 * b0, k1, m);
                assert(b0 * b0 == pow(b0, 2)) by {
                    lemma_pow1(b0);
                    lemma_pow_adds(b0, 1, 1);
                };
                lemma_pow_multiplies(b0, 2, k1);
                assert(pow(b.val(), k1) % m == pow(b0, (2 * k1) as nat) % m);
                if k0 % 2 == 1 {
                    // odd step: result absorbed one factor of b0
                    assert(2 * k1 + 1 == k0);
                    assert(pow(b0, k0) == b0 * pow(b0, (2 * k1) as nat)) by {
                        lemma_pow1(b0);
                        lemma_pow_adds(b0, 1, (2 * k1) as nat);
                    };
                    assert(fmul(result.val(), pow(b.val(), k1)) == fpow(base0, e as nat)) by {
                        lemma_mul_mod_noop_general(r0 * b0, pow(b.val(), k1), m);
                        lemma_mul_mod_noop_general(r0 * b0, pow(b0, (2 * k1) as nat), m);
                        assert((r0 * b0) * pow(b0, (2 * k1) as nat) == r0 * pow(b0, k0))
                            by (nonlinear_arith)
                            requires pow(b0, k0) == b0 * pow(b0, (2 * k1) as nat),
                        ;
                        lemma_mul_mod_noop_general(r0, pow(b0, k0), m);
                    };
                } else {
                    assert(2 * k1 == k0);
                    assert(fmul(result.val(), pow(b.val(), k1)) == fpow(base0, e as nat)) by {
                        lemma_mul_mod_noop_general(r0, pow(b.val(), k1), m);
                        lemma_mul_mod_noop_general(r0, pow(b0, (2 * k1) as nat), m);
                    };
                }
            }
        }
        proof {
            lemma_pow0(b.val());
            assert(fmul(result.val(), 1) == result.val()) by {
                lemma_small_mod((result.v as int % (FIELD_MODULUS as int)) as nat, FIELD_MODULUS as nat);
            };
        }
        result
    }

    /// The candidate multiplicative inverse `self^(p-2)`.
    pub fn inv(self) -> (r: Felt)
        ensures
            r.val() == finv(self.val()),
    {
        self.exp(FIELD_MODULUS - 2)
    }
}

} // verus!
