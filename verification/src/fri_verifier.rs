//! The verifier: parses the proof through a channel, replays the transcript
//! to re-derive every challenge, and checks each queried position through
//! every folding round down to the remainder polynomial.

use vstd::prelude::*;

verus! {

use crate::coin::{transcript_alphas, RandomCoin};
use crate::field::{fpow, Felt, FIELD_MODULUS};
use crate::fold::{
    coset_xs, domain_generator, eval_poly, interp_eval, interpolate_eval, poly_eval, vals_of,
};
use crate::hashing::{blake2s_of, hash_felts, lemma_felts_le_bytes_vals, vals_le_bytes, ByteDigest};
use crate::merkle::{climb, climb_path, digests_view, is_pow2};
use crate::fri_proof::{FriProof, LayerModel, LayerOpening, ProofLayer};
use crate::options::{num_layers_spec, FriOptions};
use crate::prover::{fold_chain_ok, fold_step_ok};
use vstd::arithmetic::power::pow;

/// Why verification failed. The first two fields of the positional variants
/// are the layer and the queried base-domain position at which the failure
/// was found.
#[derive(Clone, Copy, PartialEq, Eq, Structural, Debug)]
pub enum VerifierError {
    /// The proof's shape disagrees with the options and the domain.
    MalformedProof,
    /// A recomputed coset digest did not match the layer commitment.
    CommitmentMismatch(usize, usize),
    /// An opened value disagreed with the running folded value.
    FoldingInconsistency(usize, usize),
    /// The remainder polynomial disagreed with the final folded value.
    RemainderMismatch(usize),
    /// The remainder has more, or higher, coefficients than the degree bound
    /// allows.
    RemainderDegreeTooHigh,
}

/// The degree bound left for the remainder after `rounds` foldings of a
/// polynomial with `d` coefficients: a ceiling division by `f` per round.
pub open spec fn folded_degree_bound(d: nat, f: nat, rounds: nat) -> nat
    recommends
        f >= 2,
    decreases rounds,
{
    if rounds == 0 {
        d
    } else {
        let d2 = if d == 0 {
            0
        } else {
            ((d - 1) as nat / f + 1) as nat
        };
        folded_degree_bound(d2, f, (rounds - 1) as nat)
    }
}

/// The verifier's side of the proof: the parsed layers and remainder, and the
/// externally supplied commitments, handed out in strict forward order.
///
/// Policy on redundant commitments: the externally supplied list is the
/// transcript's source of truth; the digests embedded in the proof are
/// cross-checked against it at construction, and a disagreement at layer `i`
/// is `CommitmentMismatch(i, 0)`.
pub struct DefaultVerifierChannel {
    layers: Vec<ProofLayer>,
    remainder: Vec<Felt>,
    commitments: Vec<ByteDigest>,
    domain_size: usize,
    folding_factor: usize,
    taken: usize,
    remainder_taken: bool,
}

impl DefaultVerifierChannel {
    /// The parsed proof layers.
    pub closed spec fn layers_view(self) -> Seq<LayerModel> {
        self.layers@.map(|i: int, l: ProofLayer| l@)
    }

    /// The expected layer commitments.
    pub closed spec fn commitments_view(self) -> Seq<ByteDigest> {
        self.commitments@
    }

    /// The remainder coefficient values.
    pub closed spec fn remainder_vals(self) -> Seq<int> {
        vals_of(self.remainder@)
    }

    pub closed spec fn domain_size_spec(self) -> nat {
        self.domain_size as nat
    }

    pub closed spec fn folding_spec(self) -> nat {
        self.folding_factor as nat
    }

    pub closed spec fn taken_spec(self) -> nat {
        self.taken as nat
    }

    pub closed spec fn remainder_taken_spec(self) -> bool {
        self.remainder_taken
    }

    /// Build the channel, checking the proof's shape against the inputs: the
    /// declared folding factor must match, and the embedded layer digests
    /// must equal the expected commitments, one per layer.
    pub fn new(
        proof: FriProof,
        commitments: Vec<ByteDigest>,
        domain_size: usize,
        folding_factor: usize,
    ) -> (r: Result<DefaultVerifierChannel, VerifierError>)
        ensures
            match r {
                Ok(ch) => {
                    &&& proof.folding_factor == folding_factor as u64
                    &&& commitments@.len() == proof@.layers.len()
                    &&& forall|i: int|
                        0 <= i < commitments@.len() ==> (#[trigger] commitments@[i])@
                            == proof@.layers[i].commitment
                    &&& ch.layers_view() == proof@.layers
                    &&& ch.commitments_view() == commitments@
                    &&& ch.remainder_vals() == proof@.remainder
                    &&& ch.domain_size_spec() == domain_size as nat
                    &&& ch.folding_spec() == folding_factor as nat
                    &&& ch.taken_spec() == 0
                    &&& !ch.remainder_taken_spec()
                },
                Err(VerifierError::MalformedProof) => proof.folding_factor != folding_factor
                    as u64 || commitments@.len() != proof@.layers.len(),
                Err(VerifierError::CommitmentMismatch(i, p)) => {
                    &&& 0 <= i < commitments@.len()
                    &&& p == 0
                    &&& commitments@[i as int]@ != proof@.layers[i as int].commitment
                },
                Err(_) => false,
            },
    {
        if proof.folding_factor != folding_factor as u64 {
            return Err(VerifierError::MalformedProof);
        }
        if commitments.len() != proof.layers.len() {
            return Err(VerifierError::MalformedProof);
        }
        let mut i: usize = 0;
        while i < commitments.len()
            invariant
                commitments@.len() == proof.layers@.len(),
                i <= commitments@.len(),
                forall|k: int|
                    0 <= k < i ==> (#[trigger] commitments@[k])@ == proof@.layers[k].commitment,
            decreases commitments@.len() - i,
        {
            if !commitments[i].equals(&proof.layers[i].commitment) {
                return Err(VerifierError::CommitmentMismatch(i, 0));
            }
            i += 1;
        }
        Ok(
            DefaultVerifierChannel {
                layers: proof.layers,
                remainder: proof.remainder,
                commitments,
                domain_size,
                folding_factor,
                taken: 0,
                remainder_taken: false,
            },
        )
    }

    /// The next layer commitment, in order; an error once the proof is
    /// exhausted.
    pub fn take_next_layer_commitment(&mut self) -> (r: Result<ByteDigest, VerifierError>)
        ensures
            final(self).layers_view() == old(self).layers_view(),
            final(self).commitments_view() == old(self).commitments_view(),
            final(self).remainder_vals() == old(self).remainder_vals(),
            final(self).domain_size_spec() == old(self).domain_size_spec(),
            final(self).folding_spec() == old(self).folding_spec(),
            final(self).remainder_taken_spec() == old(self).remainder_taken_spec(),
            match r {
                Ok(d) => {
                    &&& old(self).taken_spec() < old(self).commitments_view().len()
                    &&& d == old(self).commitments_view()[old(self).taken_spec() as int]
                    &&& final(self).taken_spec() == old(self).taken_spec() + 1
                },
                Err(e) => {
                    &&& e == VerifierError::MalformedProof
                    &&& old(self).taken_spec() >= old(self).commitments_view().len()
                    &&& final(self).taken_spec() == old(self).taken_spec()
                },
            },
    {
        if self.taken < self.commitments.len() {
            let d = self.commitments[self.taken];
            self.taken = self.taken + 1;
            Ok(d)
        } else {
            Err(VerifierError::MalformedProof)
        }
    }

    /// The remainder coefficients; callable exactly once, after every layer
    /// commitment has been taken.
    pub fn take_remainder(&mut self) -> (r: Result<Vec<Felt>, VerifierError>)
        ensures
            final(self).layers_view() == old(self).layers_view(),
            final(self).commitments_view() == old(self).commitments_view(),
            final(self).remainder_vals() == old(self).remainder_vals(),
            final(self).domain_size_spec() == old(self).domain_size_spec(),
            final(self).folding_spec() == old(self).folding_spec(),
            final(self).taken_spec() == old(self).taken_spec(),
            match r {
                Ok(rem) => {
                    &&& !old(self).remainder_taken_spec()
                    &&& old(self).taken_spec() == old(self).commitments_view().len()
                    &&& vals_of(rem@) == old(self).remainder_vals()
                    &&& final(self).remainder_taken_spec()
                },
                Err(e) => {
                    &&& e == VerifierError::MalformedProof
                    &&& (old(self).remainder_taken_spec() || old(self).taken_spec() != old(
                        self,
                    ).commitments_view().len())
                    &&& final(self).remainder_taken_spec() == old(self).remainder_taken_spec()
                },
            },
    {
        if self.remainder_taken || self.taken != self.commitments.len() {
            return Err(VerifierError::MalformedProof);
        }
        self.remainder_taken = true;
        let mut rem: Vec<Felt> = Vec::new();
        let mut t: usize = 0;
        while t < self.remainder.len()
            invariant
                t <= self.remainder@.len(),
                rem@ == self.remainder@.take(t as int),
            decreases self.remainder@.len() - t,
        {
            let x = self.remainder[t];
            rem.push(x);
            proof {
                assert(rem@ =~= self.remainder@.take(t + 1));
            }
            t += 1;
        }
        proof {
            assert(self.remainder@.take(self.remainder@.len() as int) =~= self.remainder@);
            assert(vals_of(rem@) =~= vals_of(self.remainder@));
        }
        Ok(rem)
    }

    /// The recorded opening of query `q` at `layer`, as the proof carries it.
    pub fn read_layer_opening(&self, layer: usize, q: usize) -> (r: Option<&LayerOpening>)
        requires
            layer < self.layers_view().len(),
        ensures
            match r {
                Some(o) => {
                    &&& q < self.layers_view()[layer as int].openings.len()
                    &&& o@ == self.layers_view()[layer as int].openings[q as int]
                },
                None => q >= self.layers_view()[layer as int].openings.len(),
            },
    {
        if q < self.layers[layer].openings.len() {
            Some(&self.layers[layer].openings[q])
        } else {
            None
        }
    }
}

/// The first error found checking one queried position from round `layer`
/// on, with running position `pos`, running value `value`, layer generator
/// `g` and layer size `size`; `orig` is the queried base-domain position
/// reported in errors. Each round re-derives the coset index, authenticates
/// the opened coset against the commitment, matches the running value against
/// its slot, and folds; after the last round the remainder polynomial must
/// agree at the final coordinate.
pub open spec fn check_position(
    layers: Seq<LayerModel>,
    commitments: Seq<Seq<u8>>,
    alphas: Seq<int>,
    remainder: Seq<int>,
    f: nat,
    layer: int,
    q: int,
    orig: usize,
    g: int,
    size: nat,
    pos: int,
    value: int,
) -> Result<(), VerifierError>
    decreases layers.len() - layer,
{
    if layer < 0 || layer >= layers.len() {
        let x = fpow(g, pos as nat);
        if poly_eval(remainder, x) == value {
            Ok(())
        } else {
            Err(VerifierError::RemainderMismatch(orig))
        }
    } else {
        let stride = size as int / f as int;
        let p = pos % size as int;
        let c = p % stride;
        let j = p / stride;
        let os = layers[layer].openings;
        if q >= os.len() {
            Err(VerifierError::MalformedProof)
        } else {
            let o = os[q];
            if o.values.len() != f || o.position != c {
                Err(VerifierError::MalformedProof)
            } else if climb(blake2s_of(vals_le_bytes(o.values)), c, o.path)
                != commitments[layer] {
                Err(VerifierError::CommitmentMismatch(layer as usize, orig))
            } else if o.values[j] != value {
                Err(VerifierError::FoldingInconsistency(layer as usize, orig))
            } else {
                check_position(
                    layers,
                    commitments,
                    alphas,
                    remainder,
                    f,
                    layer + 1,
                    q,
                    orig,
                    fpow(g, f),
                    stride as nat,
                    c,
                    interp_eval(coset_xs(g, f, stride, c), o.values, alphas[layer]),
                )
            }
        }
    }
}

/// The first error over all queried positions, in order.
pub open spec fn check_all(
    layers: Seq<LayerModel>,
    commitments: Seq<Seq<u8>>,
    alphas: Seq<int>,
    remainder: Seq<int>,
    f: nat,
    g0: int,
    n: nat,
    positions: Seq<usize>,
    values: Seq<int>,
    q: int,
) -> Result<(), VerifierError>
    decreases positions.len() - q,
{
    if q < 0 || q >= positions.len() {
        Ok(())
    } else {
        match check_position(
            layers,
            commitments,
            alphas,
            remainder,
            f,
            0,
            q,
            positions[q],
            g0,
            n,
            positions[q] as int,
            values[q],
        ) {
            Ok(()) => check_all(
                layers,
                commitments,
                alphas,
                remainder,
                f,
                g0,
                n,
                positions,
                values,
                q + 1,
            ),
            Err(e) => Err(e),
        }
    }
}

/// Every coefficient from index `start` on is zero.
fn all_zero_from(v: &Vec<Felt>, start: usize) -> (r: bool)
    ensures
        r <==> forall|k: int| start <= k < v@.len() ==> vals_of(v@)[k] == 0,
{
    let mut t: usize = start;
    while t < v.len()
        invariant
            start <= t,
            t <= v@.len() || t == start,
            forall|k: int| start <= k < t ==> vals_of(v@)[k] == 0,
        decreases v@.len() - t,
    {
        let z = Felt::zero();
        if !v[t].same_value(z) {
            assert(vals_of(v@)[t as int] != 0);
            return false;
        }
        t += 1;
    }
    true
}

/// The coset count of layer `i`: its length divided by the folding factor.
pub open spec fn layer_stride(layer_vals: Seq<Seq<int>>, i: int, f: nat) -> int {
    layer_vals[i].len() as int / f as int
}

/// The coset index queried position `orig` lands in at layer `i`.
pub open spec fn layer_coset(layer_vals: Seq<Seq<int>>, i: int, f: nat, orig: usize) -> int {
    (orig as int % layer_vals[i].len() as int) % layer_stride(layer_vals, i, f)
}

/// Completeness of the per-round checks: when the openings record the true
/// coset values of a folding chain, their paths authenticate against the
/// commitments, and the running value seeds from the chain itself, then a
/// queried position passes the shape, commitment and consistency check of
/// every round, so verification can fail only at the final remainder
/// comparison.
pub proof fn lemma_honest_rounds_accept(
    layers: Seq<LayerModel>,
    layer_vals: Seq<Seq<int>>,
    fin: Seq<int>,
    commitments: Seq<Seq<u8>>,
    alphas: Seq<int>,
    remainder: Seq<int>,
    g0: int,
    f: nat,
    nq: int,
    layer: int,
    q: int,
    orig: usize,
)
    requires
        f >= 2,
        is_pow2(f),
        layers.len() == layer_vals.len(),
        0 <= layer <= layers.len(),
        fin.len() >= 1,
        fold_chain_ok(layer_vals, fin, alphas, g0, f),
        0 <= q < nq,
        forall|i: int|
            0 <= i < layer_vals.len() ==> is_pow2((#[trigger] layer_vals[i]).len() as nat)
                && layer_vals[i].len() >= f,
        forall|i: int|
            0 <= i < layers.len() ==> {
                let lm = #[trigger] layers[i];
                let o = lm.openings[q];
                &&& lm.commitment == commitments[i]
                &&& lm.openings.len() == nq
                &&& o.position == layer_coset(layer_vals, i, f, orig)
                &&& o.values.len() == f
                &&& climb(blake2s_of(vals_le_bytes(o.values)), o.position as int, o.path)
                    == lm.commitment
            },
        forall|i: int, j: int|
            0 <= i < layers.len() && 0 <= j < f ==> (#[trigger] layers[i].openings[q].values[j])
                == layer_vals[i][layer_coset(layer_vals, i, f, orig) + j * layer_stride(
                layer_vals,
                i,
                f,
            )],
    ensures
        ({
            let all = layer_vals.push(fin);
            let pos = orig as int % all[layer].len() as int;
            let r = check_position(
                layers,
                commitments,
                alphas,
                remainder,
                f,
                layer,
                q,
                orig,
                fpow(g0, pow(f as int, layer as nat) as nat),
                all[layer].len() as nat,
                pos,
                all[layer][pos],
            );
            r == Ok::<(), VerifierError>(()) || r == Err::<(), VerifierError>(
                VerifierError::RemainderMismatch(orig),
            )
        }),
    decreases layers.len() - layer,
{
    let all = layer_vals.push(fin);
    let size = all[layer].len() as int;
    let pos = orig as int % size;
    let value = all[layer][pos];
    let gl = fpow(g0, pow(f as int, layer as nat) as nat);
    if layer == layers.len() {
        // only the remainder comparison is left; either way the conclusion
        // holds
    } else {
        let li = layer_vals[layer];
        let stride = size / f as int;
        let o = layers[layer].openings[q];
        crate::merkle::lemma_pow2_div_pow2(size as nat, f);
        vstd::arithmetic::div_mod::lemma_fundamental_div_mod(size, f as int);
        assert(size == f * stride);
        assert(stride >= 1);
        assert(0 <= pos < size);
        let p = pos % size;
        vstd::arithmetic::div_mod::lemma_small_mod(pos as nat, size as nat);
        assert(p == pos);
        let c = p % stride;
        let j = p / stride;
        vstd::arithmetic::div_mod::lemma_fundamental_div_mod(p, stride);
        assert(p == stride * j + c);
        // the recorded coset index is the one the verifier derives
        assert(stride == layer_stride(layer_vals, layer, f));
        assert(c == layer_coset(layer_vals, layer, f, orig));
        assert(o.position == c);
        // the running value sits in its recorded slot
        assert(0 <= j < f) by (nonlinear_arith)
            requires 0 <= p < f * stride, stride >= 1, p == stride * j + c, 0 <= c < stride,
        ;
        assert(o.values[j] == li[c + j * stride]);
        assert(c + j * stride == p) by (nonlinear_arith)
            requires p == stride * j + c,
        ;
        assert(o.values[j] == value);
        // the authenticated digest matches the commitment
        assert(climb(blake2s_of(vals_le_bytes(o.values)), c, o.path) == commitments[layer]);
        // folding the opened coset gives the next layer's value at the
        // folded position
        assert(fold_step_ok(all[layer], all[layer + 1], gl, f, alphas[layer]));
        assert forall|jx: int| 0 <= jx < f implies o.values[jx] == crate::fold::coset_vs(
            li,
            f,
            stride,
            c,
        )[jx] by {
            assert(o.values[jx] == layer_vals[layer][c + jx * stride]);
        }
        assert(o.values =~= crate::fold::coset_vs(li, f, stride, c));
        assert(all[layer + 1].len() == stride);
        assert(0 <= c < all[layer + 1].len());
        let value2 = interp_eval(coset_xs(gl, f, stride, c), o.values, alphas[layer]);
        assert(value2 == crate::fold::folded_value(li, gl, f, alphas[layer], c));
        assert(all[layer + 1][c] == value2);
        // the folded position is the queried position reduced into the next layer
        vstd::arithmetic::div_mod::lemma_mod_mod(orig as int, stride, f as int);
        assert(stride * f as int == size);
        assert(c == orig as int % stride);
        // the generator advances by an `f`-th power
        let pk = pow(f as int, layer as nat);
        vstd::arithmetic::power::lemma_pow_positive(f as int, layer as nat);
        vstd::arithmetic::power::lemma_pow_mod_noop(pow(g0, pk as nat), f, FIELD_MODULUS as int);
        vstd::arithmetic::power::lemma_pow_multiplies(g0, pk as nat, f);
        vstd::arithmetic::power::lemma_pow1(f as int);
        vstd::arithmetic::power::lemma_pow_adds(f as int, layer as nat, 1);
        assert(pow(f as int, (layer + 1) as nat) == pk * f as int);
        assert(pk * f as int == pk as nat * f) by (nonlinear_arith)
            requires pk >= 1, f >= 2,
        ;
        assert(fpow(gl, f) == fpow(g0, pow(f as int, (layer + 1) as nat) as nat));
        lemma_honest_rounds_accept(
            layers,
            layer_vals,
            fin,
            commitments,
            alphas,
            remainder,
            g0,
            f,
            nq,
            layer + 1,
            q,
            orig,
        );
    }
}

/// The verifier: constructed by replaying the transcript over the layer
/// commitments, then run over the queried positions and their claimed
/// evaluations.
pub struct FriVerifier {
    options: FriOptions,
    max_degree: usize,
    domain_size: usize,
    num_layers: usize,
    alphas: Vec<Felt>,
    commitments: Vec<ByteDigest>,
    remainder: Vec<Felt>,
    g0: Felt,
}

impl FriVerifier {
    pub closed spec fn folding_spec(self) -> nat {
        self.options.folding()
    }

    pub closed spec fn domain_size_spec(self) -> nat {
        self.domain_size as nat
    }

    pub closed spec fn num_layers_spec_of(self) -> nat {
        self.num_layers as nat
    }

    pub closed spec fn alphas_vals(self) -> Seq<int> {
        vals_of(self.alphas@)
    }

    pub closed spec fn commitments_bytes(self) -> Seq<Seq<u8>> {
        digests_view(self.commitments@)
    }

    pub closed spec fn remainder_vals(self) -> Seq<int> {
        vals_of(self.remainder@)
    }

    /// The internal consistency `new` establishes and `verify` relies on.
    pub closed spec fn wf(self) -> bool {
        &&& self.options.folding() >= 2
        &&& self.num_layers as nat == num_layers_spec(
            self.domain_size as nat,
            self.options.folding(),
            self.options.max_remainder(),
        )
        &&& self.alphas@.len() == self.num_layers
        &&& self.commitments@.len() == self.num_layers
        &&& self.domain_size >= 1
        &&& is_pow2(self.domain_size as nat)
        &&& self.g0.val() == crate::prover::domain_gen_val(self.domain_size as nat)
    }

    /// Whether the channel's commitment count is the number of rounds the
    /// domain and options call for.
    pub open spec fn round_count_matches(
        channel: DefaultVerifierChannel,
        options: FriOptions,
    ) -> bool {
        num_layers_spec(channel.domain_size_spec(), options.folding(), options.max_remainder())
            == channel.commitments_view().len()
    }

    /// Whether the channel's remainder passes the degree checks: no more
    /// coefficients than the options' remainder bound allows, and every
    /// coefficient at or above the degree bound left by folding `max_degree`
    /// down through all rounds is zero.
    pub open spec fn remainder_degree_ok(
        channel: DefaultVerifierChannel,
        options: FriOptions,
        max_degree: usize,
    ) -> bool {
        let rem = channel.remainder_vals();
        let bound = folded_degree_bound(
            (max_degree + 1) as nat,
            options.folding(),
            num_layers_spec(channel.domain_size_spec(), options.folding(), options.max_remainder()),
        );
        &&& rem.len() <= options.max_remainder()
        &&& forall|t: int| bound <= t < rem.len() ==> #[trigger] rem[t] == 0
    }

    /// Replay the transcript: pull each layer commitment from the channel in
    /// order, absorb it, and draw the same challenge the prover drew; then
    /// pull the remainder and check it against the degree bounds. The
    /// challenges are a function of the coin's seed and the commitments
    /// alone. Construction succeeds exactly when the proof's round count
    /// matches the options and the remainder passes the degree checks;
    /// otherwise the error names which of the two failed.
    pub fn new(
        channel: &mut DefaultVerifierChannel,
        coin: &mut RandomCoin,
        options: FriOptions,
        max_degree: usize,
    ) -> (r: Result<FriVerifier, VerifierError>)
        requires
            old(channel).taken_spec() == 0,
            !old(channel).remainder_taken_spec(),
            old(coin).ctr() == 0,
            is_pow2(old(channel).domain_size_spec()),
            1 <= old(channel).domain_size_spec() <= 0x1_0000_0000,
            max_degree < usize::MAX,
        ensures
            final(channel).layers_view() == old(channel).layers_view(),
            final(channel).commitments_view() == old(channel).commitments_view(),
            final(channel).remainder_vals() == old(channel).remainder_vals(),
            final(channel).domain_size_spec() == old(channel).domain_size_spec(),
            final(channel).folding_spec() == old(channel).folding_spec(),
            r is Ok <==> Self::round_count_matches(*old(channel), options)
                && Self::remainder_degree_ok(*old(channel), options, max_degree),
            match r {
                Ok(v) => {
                    &&& v.wf()
                    &&& v.folding_spec() == options.folding()
                    &&& v.domain_size_spec() == old(channel).domain_size_spec()
                    &&& v.num_layers_spec_of() == num_layers_spec(
                        old(channel).domain_size_spec(),
                        options.folding(),
                        options.max_remainder(),
                    )
                    &&& v.num_layers_spec_of() == old(channel).commitments_view().len()
                    &&& v.commitments_bytes() == digests_view(old(channel).commitments_view())
                    &&& v.alphas_vals() == transcript_alphas(
                        old(coin).seed_bytes(),
                        digests_view(old(channel).commitments_view()),
                    )
                    &&& v.remainder_vals() == old(channel).remainder_vals()
                },
                Err(e) => {
                    &&& (e == VerifierError::MalformedProof <==> !Self::round_count_matches(
                        *old(channel),
                        options,
                    ))
                    &&& (e == VerifierError::RemainderDegreeTooHigh
                        <==> Self::round_count_matches(*old(channel), options)
                        && !Self::remainder_degree_ok(*old(channel), options, max_degree))
                },
            },
    {
        let domain_size = channel.domain_size;
        let num_layers = options.num_fri_layers(domain_size);
        if num_layers != channel.commitments.len() {
            return Err(VerifierError::MalformedProof);
        }
        let ghost seed0 = coin.seed_bytes();
        let ghost comms = digests_view(channel.commitments_view());
        // the remainder degree bound after all rounds: one ceiling division
        // per round
        let f = options.folding_factor();
        let mut bound: usize = max_degree + 1;
        let mut round: usize = 0;
        while round < num_layers
            invariant
                f >= 2,
                f as nat == options.folding(),
                round <= num_layers,
                folded_degree_bound(bound as nat, f as nat, (num_layers - round) as nat)
                    == folded_degree_bound(
                    (max_degree + 1) as nat,
                    f as nat,
                    num_layers as nat,
                ),
            decreases num_layers - round,
        {
            if bound > 0 {
                bound = (bound - 1) / f + 1;
            }
            round += 1;
        }
        let mut alphas: Vec<Felt> = Vec::new();
        let mut commitments: Vec<ByteDigest> = Vec::new();
        let mut i: usize = 0;
        proof {
            assert(comms.skip(0) =~= comms);
            assert(vals_of(alphas@) =~= Seq::<int>::empty());
            assert(vals_of(alphas@) + transcript_alphas(coin.seed_bytes(), comms.skip(0))
                =~= transcript_alphas(seed0, comms));
        }
        while i < num_layers
            invariant
                num_layers == channel.commitments_view().len(),
                channel.layers_view() == old(channel).layers_view(),
                channel.commitments_view() == old(channel).commitments_view(),
                channel.remainder_vals() == old(channel).remainder_vals(),
                channel.domain_size_spec() == old(channel).domain_size_spec(),
                channel.folding_spec() == old(channel).folding_spec(),
                channel.remainder_taken_spec() == old(channel).remainder_taken_spec(),
                channel.taken_spec() == i,
                comms == digests_view(channel.commitments_view()),
                i <= num_layers,
                alphas@.len() == i,
                commitments@.len() == i,
                commitments@ == channel.commitments_view().take(i as int),
                coin.ctr() == if i == 0 { 0u64 } else { 1u64 },
                vals_of(alphas@) + transcript_alphas(coin.seed_bytes(), comms.skip(i as int))
                    == transcript_alphas(seed0, comms),
            decreases num_layers - i,
        {
            let ghost pre_seed = coin.seed_bytes();
            let ghost pre_alphas = vals_of(alphas@);
            let c = match channel.take_next_layer_commitment() {
                Ok(c) => c,
                Err(e) => { return Err(e); },
            };
            coin.reseed(&c);
            let alpha = coin.draw_felt();
            alphas.push(alpha);
            commitments.push(c);
            proof {
                assert(comms.skip(i as int)[0] == c@);
                assert(comms.skip(i as int).drop_first() =~= comms.skip(i + 1));
                assert(vals_of(alphas@) =~= pre_alphas.push(alpha.val()));
                assert(seq![alpha.val()] + transcript_alphas(coin.seed_bytes(), comms.skip(i + 1))
                    =~= transcript_alphas(pre_seed, comms.skip(i as int)));
                assert(pre_alphas.push(alpha.val()) + transcript_alphas(
                    coin.seed_bytes(),
                    comms.skip(i + 1),
                ) =~= pre_alphas + (seq![alpha.val()] + transcript_alphas(
                    coin.seed_bytes(),
                    comms.skip(i + 1),
                )));
                assert(commitments@ =~= channel.commitments_view().take(i + 1));
            }
            i += 1;
        }
        let remainder = match channel.take_remainder() {
            Ok(rem) => rem,
            Err(e) => { return Err(e); },
        };
        if remainder.len() > options.max_remainder_size() {
            return Err(VerifierError::RemainderDegreeTooHigh);
        }
        // the first degree check: coefficients above the folded bound must
        // vanish
        if !all_zero_from(&remainder, bound) {
            return Err(VerifierError::RemainderDegreeTooHigh);
        }
        let g0 = domain_generator(domain_size as u64);
        proof {
            assert(comms.skip(num_layers as int) =~= Seq::<Seq<u8>>::empty());
            assert(vals_of(alphas@) + Seq::<int>::empty() =~= vals_of(alphas@));
            assert(channel.commitments_view().take(num_layers as int) =~= channel
                .commitments_view());
        }
        Ok(
            FriVerifier {
                options,
                max_degree,
                domain_size,
                num_layers,
                alphas,
                commitments,
                remainder,
                g0,
            },
        )
    }

    /// Check every queried position: seed the running value with the claimed
    /// evaluation, and for each round in order authenticate the opened coset,
    /// match the running value, and fold with that round's challenge; after
    /// the last round the remainder polynomial must agree. The result is
    /// exactly the first failure `check_all` finds, and `Ok` only if every
    /// position passes every round.
    pub fn verify(
        &self,
        channel: &DefaultVerifierChannel,
        evaluations: &Vec<Felt>,
        positions: &Vec<usize>,
    ) -> (r: Result<(), VerifierError>)
        requires
            self.wf(),
            channel.layers_view().len() == self.num_layers_spec_of(),
            evaluations@.len() == positions@.len(),
            forall|i: int|
                0 <= i < positions@.len() ==> ((#[trigger] positions@[i]) as nat)
                    < self.domain_size_spec(),
        ensures
            r == check_all(
                channel.layers_view(),
                self.commitments_bytes(),
                self.alphas_vals(),
                self.remainder_vals(),
                self.folding_spec(),
                crate::prover::domain_gen_val(self.domain_size_spec()),
                self.domain_size_spec(),
                positions@,
                vals_of(evaluations@),
                0,
            ),
    {
        let ghost layers = channel.layers_view();
        let ghost commitments = self.commitments_bytes();
        let ghost alphas = self.alphas_vals();
        let ghost remainder = self.remainder_vals();
        let ghost fs = self.folding_spec();
        let ghost g0v = crate::prover::domain_gen_val(self.domain_size_spec());
        let ghost n = self.domain_size_spec();
        let ghost values = vals_of(evaluations@);
        let f = self.options.folding_factor();
        let mut q: usize = 0;
        while q < positions.len()
            invariant
                self.wf(),
                layers == channel.layers_view(),
                commitments == self.commitments_bytes(),
                alphas == self.alphas_vals(),
                remainder == self.remainder_vals(),
                fs == self.folding_spec(),
                g0v == crate::prover::domain_gen_val(self.domain_size_spec()),
                n == self.domain_size_spec(),
                values == vals_of(evaluations@),
                f as nat == fs,
                f >= 2,
                channel.layers_view().len() == self.num_layers_spec_of(),
                evaluations@.len() == positions@.len(),
                q <= positions@.len(),
                check_all(
                    layers,
                    commitments,
                    alphas,
                    remainder,
                    fs,
                    g0v,
                    n,
                    positions@,
                    values,
                    0,
                ) == check_all(
                    layers,
                    commitments,
                    alphas,
                    remainder,
                    fs,
                    g0v,
                    n,
                    positions@,
                    values,
                    q as int,
                ),
            decreases positions@.len() - q,
        {
            match self.verify_position(channel, q, positions[q], evaluations[q]) {
                Ok(()) => {},
                Err(e) => { return Err(e); },
            }
            q += 1;
        }
        Ok(())
    }

    /// Check one queried position through every round.
    fn verify_position(
        &self,
        channel: &DefaultVerifierChannel,
        q: usize,
        position: usize,
        evaluation: Felt,
    ) -> (r: Result<(), VerifierError>)
        requires
            self.wf(),
            channel.layers_view().len() == self.num_layers_spec_of(),
        ensures
            r == check_position(
                channel.layers_view(),
                self.commitments_bytes(),
                self.alphas_vals(),
                self.remainder_vals(),
                self.folding_spec(),
                0,
                q as int,
                position,
                crate::prover::domain_gen_val(self.domain_size_spec()),
                self.domain_size_spec(),
                position as int,
                evaluation.val(),
            ),
    {
        let ghost layers = channel.layers_view();
        let ghost commitments = self.commitments_bytes();
        let ghost alphas = self.alphas_vals();
        let ghost remainder = self.remainder_vals();
        let ghost fs = self.folding_spec();
        let f = self.options.folding_factor();
        let max_rem = self.options.max_remainder_size();
        let mut g = self.g0;
        let mut size = self.domain_size;
        let mut pos = position;
        let mut value = evaluation;
        let mut layer: usize = 0;
        let ghost goal = check_position(
            layers,
            commitments,
            alphas,
            remainder,
            fs,
            0,
            q as int,
            position,
            g.val(),
            size as nat,
            pos as int,
            value.val(),
        );
        while layer < self.num_layers
            invariant
                self.wf(),
                layers == channel.layers_view(),
                commitments == self.commitments_bytes(),
                alphas == self.alphas_vals(),
                remainder == self.remainder_vals(),
                fs == self.folding_spec(),
                f as nat == fs,
                f >= 2,
                is_pow2(f as nat),
                max_rem as nat == self.options.max_remainder(),
                max_rem >= f,
                channel.layers_view().len() == self.num_layers_spec_of(),
                layer <= self.num_layers,
                size >= 1,
                is_pow2(size as nat),
                num_layers_spec(size as nat, fs, self.options.max_remainder()) == (self.num_layers
                    - layer) as nat,
                goal == check_position(
                    layers,
                    commitments,
                    alphas,
                    remainder,
                    fs,
                    0,
                    q as int,
                    position,
                    crate::prover::domain_gen_val(self.domain_size_spec()),
                    self.domain_size_spec(),
                    position as int,
                    evaluation.val(),
                ),
                goal == check_position(
                    layers,
                    commitments,
                    alphas,
                    remainder,
                    fs,
                    layer as int,
                    q as int,
                    position,
                    g.val(),
                    size as nat,
                    pos as int,
                    value.val(),
                ),
            decreases self.num_layers - layer,
        {
            proof {
                assert(size > max_rem);
                crate::merkle::lemma_pow2_div_pow2(size as nat, f as nat);
                vstd::arithmetic::div_mod::lemma_fundamental_div_mod(size as int, f as int);
            }
            let stride = size / f;
            let p = pos % size;
            let c = p % stride;
            let j = p / stride;
            let o = match channel.read_layer_opening(layer, q) {
                Some(o) => o,
                None => { return Err(VerifierError::MalformedProof); },
            };
            if o.values.len() != f || o.position != c as u64 {
                return Err(VerifierError::MalformedProof);
            }
            let leaf = hash_felts(o.values.as_slice());
            let computed_root = climb_path(&leaf, c, &o.path);
            proof {
                lemma_felts_le_bytes_vals(o.values@);
            }
            if !computed_root.equals(&self.commitments[layer]) {
                return Err(VerifierError::CommitmentMismatch(layer, position));
            }
            proof {
                assert(f * stride == size) by (nonlinear_arith)
                    requires
                        stride == size as int / f as int,
                        size as int % f as int == 0,
                        f >= 1,
                        size >= 0,
                ;
                assert(0 <= p / stride < f) by (nonlinear_arith)
                    requires 0 <= p < f * stride, stride >= 1,
                ;
            }
            if !o.values[j].same_value(value) {
                return Err(VerifierError::FoldingInconsistency(layer, position));
            }
            // fold: interpolate the opened coset and evaluate at the
            // challenge
            let mut xs: Vec<Felt> = Vec::new();
            let mut jj: usize = 0;
            while jj < f
                invariant
                    f >= 2,
                    jj <= f,
                    xs@.len() == jj,
                    stride == size as int / f as int,
                    f * stride == size,
                    c < stride,
                    forall|k: int|
                        0 <= k < jj ==> (#[trigger] xs@[k]).val() == fpow(
                            g.val(),
                            (c + k * stride) as nat,
                        ),
                decreases f - jj,
            {
                proof {
                    assert(0 <= jj * stride && jj * stride + stride <= f * stride)
                        by (nonlinear_arith)
                        requires 0 <= jj < f, stride >= 0,
                    ;
                }
                let idx = c + jj * stride;
                xs.push(g.exp(idx as u64));
                jj += 1;
            }
            proof {
                assert(vals_of(xs@) =~= coset_xs(g.val(), fs, stride as int, c as int));
            }
            let alpha = self.alphas[layer];
            let next = interpolate_eval(&xs, &o.values, alpha);
            value = next;
            pos = c;
            size = stride;
            g = g.exp(f as u64);
            layer += 1;
        }
        let x = g.exp(pos as u64);
        let rem_at = eval_poly(&self.remainder, x);
        if rem_at.same_value(value) {
            Ok(())
        } else {
            Err(VerifierError::RemainderMismatch(position))
        }
    }
}

} // verus!
