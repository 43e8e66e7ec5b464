//! The prover orchestrator: drives commit, challenge and fold rounds, retains
//! every layer until the queried positions are known, and assembles the proof.

use vstd::prelude::*;

verus! {

use vstd::arithmetic::power::{
    lemma_pow0, lemma_pow1, lemma_pow_adds, lemma_pow_mod_noop, lemma_pow_multiplies, lemma_pow_positive, pow,
};
use crate::coin::{seed_after, transcript_alphas, lemma_transcript_push, DefaultProverChannel};
use crate::field::{finv, fpow, Felt, FIELD_MODULUS};
use crate::fold::{
    domain_generator, fold_layer, folded_value, idft_coeffs, interpolate_on_domain, vals_of,
    TWO_ADIC_ROOT_OF_UNITY,
};
use crate::hashing::{
    blake2s_of, felts_le_bytes, hash_felts, lemma_felts_le_bytes_vals, vals_le_bytes, ByteDigest,
};
use crate::merkle::{climb, digests_view, is_pow2, lemma_pow2_div_pow2, merkle_root, MerkleTree};
use crate::fri_proof::{FriProof, LayerOpening, ProofLayer};
use crate::options::{num_layers_spec, FriOptions};

/// The value of the generator of a power-of-two evaluation domain of `n`
/// points.
pub open spec fn domain_gen_val(n: nat) -> int {
    fpow(TWO_ADIC_ROOT_OF_UNITY as int, (0x1_0000_0000int / n as int) as nat)
}

/// One folding round carried `prev` to `next` under challenge `alpha` over
/// the domain generated by `g`.
pub open spec fn fold_step_ok(prev: Seq<int>, next: Seq<int>, g: int, f: nat, alpha: int) -> bool {
    &&& next.len() == prev.len() as int / f as int
    &&& forall|c: int| 0 <= c < next.len() ==> next[c] == folded_value(prev, g, f, alpha, c)
}

/// The committed layers and the final unfolded layer form one folding chain:
/// each consecutive pair is one round under the matching challenge, over
/// generators that advance by `f`-th powers of the base generator `g0`.
pub open spec fn fold_chain_ok(
    layers: Seq<Seq<int>>,
    fin: Seq<int>,
    alphas: Seq<int>,
    g0: int,
    f: nat,
) -> bool {
    let all = layers.push(fin);
    &&& alphas.len() == layers.len()
    &&& forall|i: int|
        0 <= i < layers.len() ==> fold_step_ok(
            all[i],
            all[i + 1],
            fpow(g0, pow(f as int, i as nat) as nat),
            f,
            alphas[i],
        )
}

/// The digest of the coset folded into target index `c` of a layer with the
/// given values.
pub open spec fn coset_leaf(layer: Seq<int>, f: nat, c: int) -> Seq<u8> {
    let stride = layer.len() as int / f as int;
    blake2s_of(vals_le_bytes(Seq::new(f as nat, |j: int| layer[c + j * stride])))
}

/// The coset digests of a whole layer, in target-index order.
pub open spec fn layer_leaves(layer: Seq<int>, f: nat) -> Seq<Seq<u8>> {
    Seq::new((layer.len() as int / f as int) as nat, |c: int| coset_leaf(layer, f, c))
}

/// Hash every coset of the layer into its leaf digest.
fn build_coset_leaves(layer: &Vec<Felt>, f: usize) -> (r: Vec<ByteDigest>)
    requires
        f >= 2,
        layer@.len() % (f as nat) == 0,
    ensures
        digests_view(r@) == layer_leaves(vals_of(layer@), f as nat),
        r@.len() == layer@.len() / (f as nat),
{
    let ghost lv = vals_of(layer@);
    let len = layer.len();
    let stride = len / f;
    proof {
        vstd::arithmetic::div_mod::lemma_fundamental_div_mod(len as int, f as int);
    }
    let mut out: Vec<ByteDigest> = Vec::new();
    let mut c: usize = 0;
    while c < stride
        invariant
            len == layer@.len(),
            stride == len as int / f as int,
            f * stride == len,
            f >= 2,
            lv == vals_of(layer@),
            c <= stride,
            out@.len() == c,
            forall|cc: int|
                0 <= cc < c ==> (#[trigger] out@[cc])@ == coset_leaf(lv, f as nat, cc),
        decreases stride - c,
    {
        let mut coset: Vec<Felt> = Vec::new();
        let mut j: usize = 0;
        while j < f
            invariant
                len == layer@.len(),
                stride == len as int / f as int,
                f * stride == len,
                c < stride,
                lv == vals_of(layer@),
                j <= f,
                coset@.len() == j,
                forall|jj: int| 0 <= jj < j ==> #[trigger] coset@[jj] == layer@[c + jj * stride],
            decreases f - j,
        {
            proof {
                assert(j * stride + stride <= f * stride) by (nonlinear_arith)
                    requires j < f, stride >= 0,
                ;
            }
            let idx = c + j * stride;
            coset.push(layer[idx]);
            j += 1;
        }
        let d = hash_felts(coset.as_slice());
        proof {
            lemma_felts_le_bytes_vals(coset@);
            assert forall|jj: int| 0 <= jj < f implies 0 <= #[trigger] (jj * stride)
                && jj * stride + stride <= f * stride by {
                assert(0 <= jj * stride && jj * stride + stride <= f * stride)
                    by (nonlinear_arith)
                    requires 0 <= jj < f, stride >= 0,
                ;
            }
            assert(coset@.map(|i: int, x: Felt| x.val()) =~= Seq::new(
                f as nat,
                |jj: int| lv[c + jj * stride],
            ));
            assert(d@ == coset_leaf(lv, f as nat, c as int));
        }
        out.push(d);
        c += 1;
    }
    proof {
        assert(digests_view(out@) =~= layer_leaves(lv, f as nat));
    }
    out
}

/// One retained layer: its evaluations and the commitment tree over its coset
/// digests.
struct FriLayer {
    evaluations: Vec<Felt>,
    tree: MerkleTree,
}

/// The prover. `build_layers` runs the commit-challenge-fold rounds and
/// retains every layer; `build_proof` then opens the queried positions.
pub struct FriProver {
    options: FriOptions,
    layers: Vec<FriLayer>,
    remainder: Vec<Felt>,
    final_vals: Ghost<Seq<int>>,
    challenges: Ghost<Seq<int>>,
    built: bool,
}

impl FriProver {
    /// The folding factor the prover works with.
    pub closed spec fn folding(self) -> nat {
        self.options.folding()
    }

    /// The remainder bound the prover folds down to.
    pub closed spec fn max_remainder(self) -> nat {
        self.options.max_remainder()
    }

    /// The values of each committed layer, first layer first.
    pub closed spec fn layer_vals(self) -> Seq<Seq<int>> {
        self.layers@.map(|i: int, l: FriLayer| vals_of(l.evaluations@))
    }

    /// The values of the final, unfolded layer.
    pub closed spec fn final_layer_vals(self) -> Seq<int> {
        self.final_vals@
    }

    /// The challenge drawn after each commitment.
    pub closed spec fn challenges_view(self) -> Seq<int> {
        self.challenges@
    }

    /// The remainder polynomial's coefficient values.
    pub closed spec fn remainder_vals(self) -> Seq<int> {
        vals_of(self.remainder@)
    }

    /// The layer commitments, in order.
    pub closed spec fn commitment_roots(self) -> Seq<Seq<u8>> {
        self.layers@.map(|i: int, l: FriLayer| merkle_root(l.tree.leaf_seq()))
    }

    /// The size of the base evaluation domain the layers were built from.
    pub open spec fn base_layer_len(self) -> int {
        self.layer_vals().push(self.final_layer_vals())[0].len() as int
    }

    /// `build_layers` has completed and the retained state is consistent:
    /// each tree commits exactly the coset digests of its layer.
    pub closed spec fn is_built(self) -> bool {
        let f = self.options.folding();
        &&& self.built
        &&& f >= 2
        &&& forall|i: int|
            0 <= i < self.layers@.len() ==> {
                let evs = vals_of((#[trigger] self.layers@[i]).evaluations@);
                &&& evs.len() as int % f as int == 0
                &&& evs.len() as int / f as int >= 1
                &&& self.layers@[i].tree.leaf_seq() == layer_leaves(evs, f)
            }
    }

    /// A fresh prover with the given options.
    pub fn new(options: FriOptions) -> (r: FriProver)
        ensures
            !r.is_built(),
            r.layer_vals().len() == 0,
            r.folding() == options.folding(),
            r.max_remainder() == options.max_remainder(),
    {
        let r = FriProver {
            options,
            layers: Vec::new(),
            remainder: Vec::new(),
            final_vals: Ghost(Seq::empty()),
            challenges: Ghost(Seq::empty()),
            built: false,
        };
        proof {
            assert(r.layer_vals() =~= Seq::<Seq<int>>::empty());
        }
        r
    }

    /// Run the rounds: while the current layer exceeds the remainder bound,
    /// commit it, absorb the commitment into the transcript, draw the
    /// challenge and fold; then interpolate the final layer into the
    /// remainder coefficients.
    pub fn build_layers(&mut self, channel: &mut DefaultProverChannel, evaluations: Vec<Felt>)
        requires
            !old(self).is_built(),
            old(self).layer_vals().len() == 0,
            is_pow2(evaluations@.len() as nat),
            evaluations@.len() <= 0x1_0000_0000,
        ensures
            final(self).is_built(),
            final(self).folding() == old(self).folding(),
            final(self).layer_vals().len() == num_layers_spec(
                evaluations@.len() as nat,
                old(self).folding(),
                old(self).max_remainder(),
            ),
            fold_chain_ok(
                final(self).layer_vals(),
                final(self).final_layer_vals(),
                final(self).challenges_view(),
                domain_gen_val(evaluations@.len() as nat),
                old(self).folding(),
            ),
            final(self).layer_vals().push(final(self).final_layer_vals())[0] == vals_of(
                evaluations@,
            ),
            final(self).remainder_vals() == idft_coeffs(
                final(self).final_layer_vals(),
                finv(
                    fpow(
                        domain_gen_val(evaluations@.len() as nat),
                        pow(
                            old(self).folding() as int,
                            final(self).layer_vals().len() as nat,
                        ) as nat,
                    ),
                ),
                finv(final(self).final_layer_vals().len() as int % (FIELD_MODULUS as int)),
            ),
            digests_view(final(channel).commitments_view()) == digests_view(
                old(channel).commitments_view(),
            ) + final(self).commitment_roots(),
            final(self).challenges_view() == transcript_alphas(
                old(channel).coin_seed(),
                final(self).commitment_roots(),
            ),
            final(channel).coin_seed() == seed_after(
                old(channel).coin_seed(),
                final(self).commitment_roots(),
            ),
    {
        let ghost n0 = evaluations@.len() as nat;
        let ghost g0 = domain_gen_val(n0);
        let ghost commits0 = digests_view(channel.commitments_view());
        let ghost coin_seed0 = channel.coin_seed();
        let f = self.options.folding_factor();
        let max_rem = self.options.max_remainder_size();
        self.layers = Vec::new();
        self.remainder = Vec::new();
        self.challenges = Ghost(Seq::empty());
        self.built = false;
        let mut cur = evaluations;
        let mut g = domain_generator(cur.len() as u64);
        proof {
            assert(self.layer_vals() =~= Seq::<Seq<int>>::empty());
            assert(self.commitment_roots() =~= Seq::<Seq<u8>>::empty());
            assert(digests_view(channel.commitments_view()) =~= commits0
                + self.commitment_roots());
            assert(channel.coin_seed() == seed_after(coin_seed0, self.commitment_roots()));
            assert(self.challenges@ =~= transcript_alphas(
                coin_seed0,
                self.commitment_roots(),
            ));
            lemma_pow0(f as int);
            lemma_pow1(g0);
            vstd::arithmetic::div_mod::lemma_small_mod(
                g0 as nat,
                crate::field::FIELD_MODULUS as nat,
            );
            assert(g.val() == fpow(g0, pow(f as int, 0) as nat));
        }
        while cur.len() > max_rem
            invariant
                f as nat == self.options.folding(),
                f >= 2,
                is_pow2(f as nat),
                max_rem as nat == self.options.max_remainder(),
                max_rem as nat >= f as nat,
                is_pow2(cur@.len() as nat),
                1 <= cur@.len() <= 0x1_0000_0000,
                self.built == false,
                self.remainder@.len() == 0,
                self.options == old(self).options,
                self.challenges@.len() == self.layers@.len(),
                g.val() == fpow(g0, pow(f as int, self.layers@.len() as nat) as nat),
                self.layers@.len() as nat + num_layers_spec(
                    cur@.len() as nat,
                    f as nat,
                    max_rem as nat,
                ) == num_layers_spec(n0, f as nat, max_rem as nat),
                fold_chain_ok(self.layer_vals(), vals_of(cur@), self.challenges@, g0, f as nat),
                self.layers@.len() == 0 ==> vals_of(cur@) == vals_of(evaluations@),
                self.layers@.len() > 0 ==> self.layer_vals()[0] == vals_of(evaluations@),
                forall|i: int|
                    0 <= i < self.layers@.len() ==> {
                        let evs = vals_of((#[trigger] self.layers@[i]).evaluations@);
                        &&& evs.len() as int % f as int == 0
                        &&& evs.len() as int / f as int >= 1
                        &&& self.layers@[i].tree.leaf_seq() == layer_leaves(evs, f as nat)
                    },
                digests_view(channel.commitments_view()) == commits0
                    + self.commitment_roots(),
                channel.coin_seed() == seed_after(coin_seed0, self.commitment_roots()),
                self.challenges@ == transcript_alphas(coin_seed0, self.commitment_roots()),
            decreases cur@.len(),
        {
            let ghost k = self.layers@.len() as nat;
            let ghost cur0 = vals_of(cur@);
            let ghost gk = g.val();
            proof {
                lemma_pow2_div_pow2(cur@.len() as nat, f as nat);
            }
            let leaves = build_coset_leaves(&cur, f);
            proof {
                lemma_pow2_div_pow2(cur@.len() as nat, f as nat);
            }
            let tree = MerkleTree::new(leaves);
            let root = tree.root();
            let ghost chan_before = channel.commitments_view();
            channel.commit_fri_layer(root);
            let ghost chan_after = channel.commitments_view();
            let alpha = channel.draw_fri_alpha();
            let folded = fold_layer(&cur, g, f, alpha);
            let ghost old_layers = self.layers@;
            let ghost old_chals = self.challenges@;
            self.layers.push(FriLayer { evaluations: cur, tree });
            proof {
                self.challenges@ = old_chals.push(alpha.val());
            }
            cur = folded;
            g = g.exp(f as u64);
            proof {
                // generator advance: (g0^(f^k))^f == g0^(f^(k+1))
                let m = FIELD_MODULUS as int;
                let pk = pow(f as int, k);
                lemma_pow_positive(f as int, k);
                lemma_pow_mod_noop(pow(g0, pk as nat), f as nat, m);
                lemma_pow_multiplies(g0, pk as nat, f as nat);
                lemma_pow1(f as int);
                lemma_pow_adds(f as int, k, 1);
                assert(pow(f as int, k + 1) == pk * f as int);
                assert(pk * f as int == pk as nat * f as nat) by (nonlinear_arith)
                    requires pk >= 1, f >= 2,
                ;
                assert(g.val() == fpow(g0, pow(f as int, (k + 1) as nat) as nat));

                // layer map and root map grow by one
                assert(self.layer_vals() =~= old_layers.map(
                    |i: int, l: FriLayer| vals_of(l.evaluations@),
                ).push(cur0));
                assert(self.commitment_roots() =~= old_layers.map(
                    |i: int, l: FriLayer| merkle_root(l.tree.leaf_seq()),
                ).push(merkle_root(layer_leaves(cur0, f as nat))));
                assert(chan_after == chan_before.push(root));
                assert(digests_view(chan_after) =~= digests_view(chan_before).push(root@));
                assert(channel.commitments_view() == chan_after);
                assert(digests_view(channel.commitments_view()) =~= commits0
                    + self.commitment_roots());

                // the challenge just drawn extends the transcript by one step
                let old_roots = old_layers.map(
                    |i: int, l: FriLayer| merkle_root(l.tree.leaf_seq()),
                );
                lemma_transcript_push(coin_seed0, old_roots, root@);
                assert(self.commitment_roots() == old_roots.push(
                    merkle_root(layer_leaves(cur0, f as nat)),
                ));
                assert(root@ == merkle_root(layer_leaves(cur0, f as nat)));
                assert(channel.coin_seed() == seed_after(coin_seed0, self.commitment_roots()));
                assert(self.challenges@ =~= transcript_alphas(
                    coin_seed0,
                    self.commitment_roots(),
                ));

                // the chain extends by the round just performed
                let lv = self.layer_vals();
                let all_old = old_layers.map(|i: int, l: FriLayer| vals_of(l.evaluations@)).push(
                    cur0,
                );
                let all_new = lv.push(vals_of(cur@));
                assert(all_new.len() == all_old.len() + 1);
                assert(forall|i: int| 0 <= i < all_old.len() ==> all_new[i] == all_old[i]);
                assert(fold_step_ok(cur0, vals_of(cur@), gk, f as nat, alpha.val()));
                assert(fold_chain_ok(lv, vals_of(cur@), self.challenges@, g0, f as nat));
            }
        }
        let rem = interpolate_on_domain(&cur, g);
        self.remainder = rem;
        proof {
            self.final_vals@ = vals_of(cur@);
        }
        self.built = true;
        proof {
            assert(self.layer_vals().push(self.final_layer_vals())[0] == vals_of(evaluations@));
        }
    }

    /// Open every queried position at every retained layer and assemble the
    /// proof. Each opening records the coset index of the position at that
    /// layer (the position reduced into the layer and then into its coset
    /// count), the coset's values, and a path whose recomputed root is
    /// exactly that layer's commitment — honest openings always authenticate.
    pub fn build_proof(&self, positions: &Vec<usize>) -> (r: FriProof)
        requires
            self.is_built(),
            forall|k: int|
                0 <= k < positions@.len() ==> (#[trigger] positions@[k]) < self.base_layer_len(),
        ensures
            r@.folding_factor == self.folding() as u64,
            r@.remainder == self.remainder_vals(),
            r@.layers.len() == self.layer_vals().len(),
            forall|i: int|
                0 <= i < r@.layers.len() ==> {
                    let lm = #[trigger] r@.layers[i];
                    let li = self.layer_vals()[i];
                    let stride = li.len() as int / self.folding() as int;
                    &&& lm.commitment == self.commitment_roots()[i]
                    &&& lm.openings.len() == positions@.len()
                    &&& forall|q: int|
                        0 <= q < positions@.len() ==> {
                            let o = #[trigger] lm.openings[q];
                            let c = (positions@[q] as int % li.len() as int) % stride;
                            &&& o.position == c
                            &&& o.values == Seq::new(
                                self.folding(),
                                |j: int| li[c + j * stride],
                            )
                            &&& climb(blake2s_of(vals_le_bytes(o.values)), c, o.path)
                                == lm.commitment
                        }
                },
    {
        let f = self.options.folding_factor();
        let mut out_layers: Vec<ProofLayer> = Vec::new();
        let mut i: usize = 0;
        while i < self.layers.len()
            invariant
                self.is_built(),
                f as nat == self.folding(),
                f >= 2,
                i <= self.layers@.len(),
                out_layers@.len() == i,
                forall|ii: int|
                    0 <= ii < i ==> {
                        let lm = (#[trigger] out_layers@[ii])@;
                        let li = self.layer_vals()[ii];
                        let stride = li.len() as int / f as int;
                        &&& lm.commitment == self.commitment_roots()[ii]
                        &&& lm.openings.len() == positions@.len()
                        &&& forall|q: int|
                            0 <= q < positions@.len() ==> {
                                let o = #[trigger] lm.openings[q];
                                let c = (positions@[q] as int % li.len() as int) % stride;
                                &&& o.position == c
                                &&& o.values == Seq::new(
                                    f as nat,
                                    |j: int| li[c + j * stride],
                                )
                                &&& climb(blake2s_of(vals_le_bytes(o.values)), c, o.path)
                                    == lm.commitment
                            }
                    },
            decreases self.layers@.len() - i,
        {
            let evs = &self.layers[i].evaluations;
            let tree = &self.layers[i].tree;
            let ghost li = vals_of(evs@);
            let len = evs.len();
            let stride = len / f;
            proof {
                vstd::arithmetic::div_mod::lemma_fundamental_div_mod(len as int, f as int);
            }
            let root = tree.root();
            let mut openings: Vec<LayerOpening> = Vec::new();
            let mut q: usize = 0;
            while q < positions.len()
                invariant
                    self.is_built(),
                    f as nat == self.folding(),
                    f >= 2,
                    i < self.layers@.len(),
                    evs == &self.layers@[i as int].evaluations,
                    tree == &self.layers@[i as int].tree,
                    li == vals_of(evs@),
                    len == evs@.len(),
                    stride == len as int / f as int,
                    stride >= 1,
                    f * stride == len,
                    root@ == self.commitment_roots()[i as int],
                    q <= positions@.len(),
                    openings@.len() == q,
                    forall|qq: int|
                        0 <= qq < q ==> {
                            let o = (#[trigger] openings@[qq])@;
                            let c = (positions@[qq] as int % len as int) % stride as int;
                            &&& o.position == c
                            &&& o.values == Seq::new(f as nat, |j: int| li[c + j * stride])
                            &&& climb(blake2s_of(vals_le_bytes(o.values)), c, o.path) == root@
                        },
                decreases positions@.len() - q,
            {
                let p = positions[q] % len;
                let c = p % stride;
                let mut vals: Vec<Felt> = Vec::new();
                let mut j: usize = 0;
                while j < f
                    invariant
                        li == vals_of(evs@),
                        len == evs@.len(),
                        stride == len as int / f as int,
                        f * stride == len,
                        c < stride,
                        j <= f,
                        vals@.len() == j,
                        forall|jj: int|
                            0 <= jj < j ==> #[trigger] vals@[jj] == evs@[c + jj * stride],
                    decreases f - j,
                {
                    proof {
                        assert(j * stride + stride <= f * stride) by (nonlinear_arith)
                            requires j < f, stride >= 0,
                        ;
                    }
                    let idx = c + j * stride;
                    vals.push(evs[idx]);
                    j += 1;
                }
                let path = tree.open(c);
                let opening = LayerOpening { position: c as u64, values: vals, path };
                proof {
                    lemma_felts_le_bytes_vals(opening.values@);
                    assert forall|jj: int| 0 <= jj < f implies 0 <= #[trigger] (jj * stride)
                        && jj * stride + stride <= f * stride by {
                        assert(0 <= jj * stride && jj * stride + stride <= f * stride)
                            by (nonlinear_arith)
                            requires 0 <= jj < f, stride >= 0,
                        ;
                    }
                    assert(vals_of(opening.values@) =~= Seq::new(
                        f as nat,
                        |jj: int| li[c + jj * stride],
                    ));
                    assert(tree.leaf_seq()[c as int] == coset_leaf(li, f as nat, c as int));
                    assert(climb(
                        blake2s_of(vals_le_bytes(opening@.values)),
                        c as int,
                        opening@.path,
                    ) == root@);
                }
                openings.push(opening);
                q += 1;
            }
            out_layers.push(ProofLayer { commitment: root, openings });
            i += 1;
        }
        let mut rem: Vec<Felt> = Vec::new();
        let mut t: usize = 0;
        while t < self.remainder.len()
            invariant
                t <= self.remainder@.len(),
                rem@ == self.remainder@.take(t as int),
            decreases self.remainder@.len() - t,
        {
            let x = self.remainder[t];
            rem.push(x);
            proof {
                assert(rem@ =~= self.remainder@.take(t + 1));
            }
            t += 1;
        }
        proof {
            assert(self.remainder@.take(self.remainder@.len() as int) =~= self.remainder@);
        }
        let r = FriProof { folding_factor: f as u64, layers: out_layers, remainder: rem };
        proof {
            assert(r@.layers =~= out_layers@.map(|ii: int, l: ProofLayer| l@));
        }
        r
    }
}

} // verus!
