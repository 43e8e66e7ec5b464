//! Public protocol parameters, agreed by prover and verifier out of band.

use vstd::prelude::*;

verus! {

use crate::merkle::is_pow2;

/// How many folding rounds a domain of `n` points takes before its size first
/// drops to `max_remainder` or below, folding by `f` each round.
///
/// Rounding policy: folding stops at the first layer whose size is at most
/// `max_remainder`; when no whole number of rounds lands exactly on that
/// bound, the final layer is simply smaller than it.
pub open spec fn num_layers_spec(n: nat, f: nat, max_remainder: nat) -> nat
    recommends
        f >= 2,
        max_remainder >= 1,
    decreases n,
    via num_layers_spec_dec
{
    if n <= max_remainder || f < 2 || n < 1 {
        0
    } else {
        1 + num_layers_spec(n / f, f, max_remainder)
    }
}

#[via_fn]
proof fn num_layers_spec_dec(n: nat, f: nat, max_remainder: nat) {
    if !(n <= max_remainder || f < 2 || n < 1) {
        lemma_div_shrinks(n, f);
    }
}

/// Dividing a positive number by at least two strictly shrinks it.
pub proof fn lemma_div_shrinks(n: nat, f: nat)
    requires
        n >= 1,
        f >= 2,
    ensures
        n / f < n,
{
    assert(n / f < n) by (nonlinear_arith)
        requires n >= 1, f >= 2,
    ;
}

/// The round count never exceeds the domain size itself.
pub proof fn lemma_num_layers_le(n: nat, f: nat, max_remainder: nat)
    requires
        f >= 2,
        max_remainder >= 1,
    ensures
        num_layers_spec(n, f, max_remainder) <= n,
    decreases n,
{
    if !(n <= max_remainder || f < 2 || n < 1) {
        lemma_div_shrinks(n, f);
        lemma_num_layers_le(n / f, f, max_remainder);
    }
}

/// The domain size left after `num_layers_spec` rounds of folding.
pub open spec fn remainder_size_spec(n: nat, f: nat, max_remainder: nat) -> nat
    recommends
        f >= 2,
        max_remainder >= 1,
    decreases n,
    via remainder_size_spec_dec
{
    if n <= max_remainder || f < 2 || n < 1 {
        n
    } else {
        remainder_size_spec(n / f, f, max_remainder)
    }
}

#[via_fn]
proof fn remainder_size_spec_dec(n: nat, f: nat, max_remainder: nat) {
    if !(n <= max_remainder || f < 2 || n < 1) {
        lemma_div_shrinks(n, f);
    }
}

/// The protocol's public parameters: the per-round folding factor, the blowup
/// of the evaluation domain over the degree bound, and the largest final layer
/// that is interpolated in the clear instead of folded further.
#[derive(Clone, Copy, PartialEq, Eq, Structural, Debug)]
pub struct FriOptions {
    blowup_factor: usize,
    folding_factor: usize,
    max_remainder_size: usize,
}

impl FriOptions {
    pub closed spec fn blowup(self) -> nat {
        self.blowup_factor as nat
    }

    pub closed spec fn folding(self) -> nat {
        self.folding_factor as nat
    }

    pub closed spec fn max_remainder(self) -> nat {
        self.max_remainder_size as nat
    }

    #[verifier::type_invariant]
    spec fn wf(self) -> bool {
        &&& is_pow2(self.blowup_factor as nat)
        &&& is_pow2(self.folding_factor as nat)
        &&& self.folding_factor >= 2
        &&& self.max_remainder_size >= self.folding_factor
        &&& self.blowup_factor >= self.folding_factor
    }

    /// The blowup and folding factors must be powers of two, the blowup at
    /// least the folding factor, and the remainder bound (any positive size)
    /// at least the folding factor so that every layer above the bound still
    /// splits into whole cosets.
    pub fn new(blowup_factor: usize, folding_factor: usize, max_remainder_size: usize) -> (r:
        FriOptions)
        requires
            is_pow2(blowup_factor as nat),
            is_pow2(folding_factor as nat),
            folding_factor >= 2,
            max_remainder_size >= folding_factor,
            blowup_factor >= folding_factor,
        ensures
            r.blowup() == blowup_factor as nat,
            r.folding() == folding_factor as nat,
            r.max_remainder() == max_remainder_size as nat,
    {
        FriOptions { blowup_factor, folding_factor, max_remainder_size }
    }

    pub fn blowup_factor(&self) -> (r: usize)
        ensures
            r as nat == self.blowup(),
            r >= 1,
            is_pow2(r as nat),
    {
        proof {
            use_type_invariant(self);
        }
        self.blowup_factor
    }

    pub fn folding_factor(&self) -> (r: usize)
        ensures
            r as nat == self.folding(),
            r >= 2,
            is_pow2(r as nat),
    {
        proof {
            use_type_invariant(self);
        }
        self.folding_factor
    }

    pub fn max_remainder_size(&self) -> (r: usize)
        ensures
            r as nat == self.max_remainder(),
            r >= 1,
            r as nat >= self.folding(),
    {
        proof {
            use_type_invariant(self);
        }
        self.max_remainder_size
    }

    /// How many folding rounds a domain of `domain_size` points goes through
    /// under these options.
    pub fn num_fri_layers(&self, domain_size: usize) -> (r: usize)
        ensures
            r as nat == num_layers_spec(domain_size as nat, self.folding(), self.max_remainder()),
    {
        proof {
            use_type_invariant(self);
        }
        let mut n = domain_size;
        let mut count: usize = 0;
        let ghost total = num_layers_spec(domain_size as nat, self.folding(), self.max_remainder());
        proof {
            lemma_num_layers_le(domain_size as nat, self.folding(), self.max_remainder());
        }
        while n > self.max_remainder_size
            invariant
                self.folding_factor >= 2,
                self.max_remainder_size >= 1,
                total <= domain_size,
                count as nat + num_layers_spec(n as nat, self.folding(), self.max_remainder())
                    == total,
            decreases n,
        {
            proof {
                lemma_div_shrinks(n as nat, self.folding());
            }
            n = n / self.folding_factor;
            count = count + 1;
        }
        count
    }

    /// The size of the final, unfolded layer for a domain of `domain_size`
    /// points.
    pub fn fri_remainder_size(&self, domain_size: usize) -> (r: usize)
        ensures
            r as nat == remainder_size_spec(
                domain_size as nat,
                self.folding(),
                self.max_remainder(),
            ),
            r <= domain_size,
    {
        proof {
            use_type_invariant(self);
        }
        let mut n = domain_size;
        while n > self.max_remainder_size
            invariant
                self.folding_factor >= 2,
                self.max_remainder_size >= 1,
                n <= domain_size,
                remainder_size_spec(n as nat, self.folding(), self.max_remainder())
                    == remainder_size_spec(
                    domain_size as nat,
                    self.folding(),
                    self.max_remainder(),
                ),
            decreases n,
        {
            proof {
                lemma_div_shrinks(n as nat, self.folding());
            }
            n = n / self.folding_factor;
        }
        n
    }
}

} // verus!
