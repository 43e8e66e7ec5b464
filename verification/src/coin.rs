//! The Fiat-Shamir random coin: a deterministic pseudorandom stream seeded by
//! hashing, reseeded with each commitment, from which both sides draw
//! byte-identical challenges and query positions.

use vstd::prelude::*;

verus! {

use vstd::bytes::{spec_u64_from_le_bytes, spec_u64_to_le_bytes, u64_from_le_bytes};
use vstd::slice::slice_subrange;
use crate::field::{Felt, FIELD_MODULUS};
use crate::hashing::{blake2s_of, blake2s, merge, merge_with_int, ByteDigest};
use crate::options::FriOptions;

/// The coin could not gather enough distinct values within its bounded number
/// of draws.
#[derive(Clone, Copy, PartialEq, Eq, Structural, Debug)]
pub enum RandomCoinError {
    FailedToDrawIntegers,
}

/// The draw counter after one more draw; it wraps at the top of its range.
pub open spec fn next_ctr(c: u64) -> u64 {
    if c == u64::MAX {
        0
    } else {
        (c + 1) as u64
    }
}

/// The raw 64-bit value of draw number `ctr` from a coin whose seed digest is
/// `seed`: the first eight bytes, little endian, of the seed hashed together
/// with `ctr`.
pub open spec fn draw_u64_spec(seed: Seq<u8>, ctr: u64) -> u64 {
    spec_u64_from_le_bytes(blake2s_of(seed + spec_u64_to_le_bytes(ctr)).take(8))
}

/// The field element of draw number `ctr`: the raw value reduced into the
/// field.
pub open spec fn draw_felt_spec(seed: Seq<u8>, ctr: u64) -> int {
    draw_u64_spec(seed, ctr) as int % (FIELD_MODULUS as int)
}

/// The seed a transcript holds after absorbing the given commitments in
/// order, starting from `seed`.
pub open spec fn seed_after(seed: Seq<u8>, comms: Seq<Seq<u8>>) -> Seq<u8>
    decreases comms.len(),
{
    if comms.len() == 0 {
        seed
    } else {
        seed_after(blake2s_of(seed + comms[0]), comms.drop_first())
    }
}

/// The challenges a transcript derives from `seed` by absorbing the given
/// commitments in order and drawing one field element after each: a function
/// of the seed and the commitments alone, which is why prover and verifier
/// derive byte-identical challenge sequences.
pub open spec fn transcript_alphas(seed: Seq<u8>, comms: Seq<Seq<u8>>) -> Seq<int>
    decreases comms.len(),
{
    if comms.len() == 0 {
        Seq::empty()
    } else {
        let seed2 = blake2s_of(seed + comms[0]);
        seq![draw_felt_spec(seed2, 1)] + transcript_alphas(seed2, comms.drop_first())
    }
}

/// Absorbing one more commitment extends the seed and challenge sequence by
/// one step.
pub proof fn lemma_transcript_push(seed: Seq<u8>, comms: Seq<Seq<u8>>, c: Seq<u8>)
    ensures
        seed_after(seed, comms.push(c)) == blake2s_of(seed_after(seed, comms) + c),
        transcript_alphas(seed, comms.push(c)) == transcript_alphas(seed, comms).push(
            draw_felt_spec(blake2s_of(seed_after(seed, comms) + c), 1),
        ),
    decreases comms.len(),
{
    let full = comms.push(c);
    if comms.len() == 0 {
        assert(full[0] == c);
        assert(full.drop_first() =~= Seq::<Seq<u8>>::empty());
        let seed2 = blake2s_of(seed + c);
        assert(seed_after(seed, full) == seed_after(seed2, full.drop_first()));
        assert(seed_after(seed2, full.drop_first()) == seed2);
        assert(seed_after(seed, comms) == seed);
        assert(transcript_alphas(seed, full) == seq![draw_felt_spec(seed2, 1)]
            + transcript_alphas(seed2, full.drop_first()));
        assert(transcript_alphas(seed2, full.drop_first()) =~= Seq::<int>::empty());
        assert(transcript_alphas(seed, comms) =~= Seq::<int>::empty());
        assert(seq![draw_felt_spec(seed2, 1)] + Seq::<int>::empty() =~= transcript_alphas(
            seed,
            comms,
        ).push(draw_felt_spec(seed2, 1)));
    } else {
        let seed2 = blake2s_of(seed + comms[0]);
        assert(full[0] == comms[0]);
        assert(full.drop_first() =~= comms.drop_first().push(c));
        lemma_transcript_push(seed2, comms.drop_first(), c);
        assert(seed_after(seed, full) == seed_after(seed2, full.drop_first()));
        assert(seed_after(seed, comms) == seed_after(seed2, comms.drop_first()));
        assert(transcript_alphas(seed, full) == seq![draw_felt_spec(seed2, 1)]
            + transcript_alphas(seed2, full.drop_first()));
        assert(transcript_alphas(seed, comms) == seq![draw_felt_spec(seed2, 1)]
            + transcript_alphas(seed2, comms.drop_first()));
        assert(seq![draw_felt_spec(seed2, 1)] + transcript_alphas(
            seed2,
            comms.drop_first(),
        ).push(draw_felt_spec(blake2s_of(seed_after(seed2, comms.drop_first()) + c), 1))
            =~= (seq![draw_felt_spec(seed2, 1)] + transcript_alphas(
            seed2,
            comms.drop_first(),
        )).push(draw_felt_spec(blake2s_of(seed_after(seed, comms) + c), 1)));
    }
}

/// The state `(positions, counter)` after repeatedly drawing values reduced
/// modulo `bound`, keeping first occurrences, until `count` distinct positions
/// are gathered or `fuel` draws have been spent.
pub open spec fn draw_ints_rec(
    seed: Seq<u8>,
    ctr: u64,
    bound: u64,
    count: nat,
    fuel: nat,
    acc: Seq<u64>,
) -> (Seq<u64>, u64)
    decreases fuel,
{
    if acc.len() >= count || fuel == 0 {
        (acc, ctr)
    } else {
        let c2 = next_ctr(ctr);
        let v = draw_u64_spec(seed, c2) % bound;
        let acc2 = if acc.contains(v) {
            acc
        } else {
            acc.push(v)
        };
        draw_ints_rec(seed, c2, bound, count, (fuel - 1) as nat, acc2)
    }
}

/// How many draws `draw_integers` spends before giving up.
pub const DRAW_FUEL: u64 = 1000;

/// The transcript's randomness source. Its whole state is a seed digest and a
/// draw counter, so identically seeded coins fed identical reseeds yield
/// identical draws.
pub struct RandomCoin {
    seed: ByteDigest,
    counter: u64,
}

impl RandomCoin {
    /// The current seed digest.
    pub closed spec fn seed_bytes(self) -> Seq<u8> {
        self.seed@
    }

    /// How many values were drawn since the last reseed.
    pub closed spec fn ctr(self) -> u64 {
        self.counter
    }

    /// A coin seeded with the hash of the given bytes.
    pub fn new(seed: &[u8]) -> (r: RandomCoin)
        ensures
            r.seed_bytes() == blake2s_of(seed@),
            r.ctr() == 0,
    {
        RandomCoin { seed: blake2s(seed), counter: 0 }
    }

    /// Absorb a commitment: the new seed is the hash of the old seed and the
    /// digest, and the draw counter restarts.
    pub fn reseed(&mut self, d: &ByteDigest)
        ensures
            final(self).seed_bytes() == blake2s_of(old(self).seed_bytes() + d@),
            final(self).ctr() == 0,
    {
        let s = merge(&self.seed, d);
        self.seed = s;
        self.counter = 0;
    }

    /// Draw one field element challenge.
    pub fn draw_felt(&mut self) -> (r: Felt)
        ensures
            final(self).seed_bytes() == old(self).seed_bytes(),
            final(self).ctr() == next_ctr(old(self).ctr()),
            r.val() == draw_felt_spec(old(self).seed_bytes(), next_ctr(old(self).ctr())),
    {
        let v = self.draw_u64();
        Felt::new(v)
    }

    /// Draw one raw 64-bit value.
    pub fn draw_u64(&mut self) -> (r: u64)
        ensures
            final(self).seed_bytes() == old(self).seed_bytes(),
            final(self).ctr() == next_ctr(old(self).ctr()),
            r == draw_u64_spec(old(self).seed_bytes(), next_ctr(old(self).ctr())),
    {
        self.counter = self.counter.wrapping_add(1);
        let d = merge_with_int(&self.seed, self.counter);
        let head: &[u8] = slice_subrange(d.0.as_slice(), 0, 8);
        u64_from_le_bytes(head)
    }

    /// Draw `count` pairwise-distinct positions below `bound`, spending at
    /// most `DRAW_FUEL` raw draws. The result is a function of the coin's
    /// state alone; it is an error only if the fuel runs out first.
    pub fn draw_integers(&mut self, count: usize, bound: u64) -> (r: Result<
        Vec<u64>,
        RandomCoinError,
    >)
        requires
            bound >= 1,
        ensures
            final(self).seed_bytes() == old(self).seed_bytes(),
            ({
                let (ps, c2) = draw_ints_rec(
                    old(self).seed_bytes(),
                    old(self).ctr(),
                    bound,
                    count as nat,
                    DRAW_FUEL as nat,
                    Seq::empty(),
                );
                &&& final(self).ctr() == c2
                &&& match r {
                    Ok(v) => v@ == ps && ps.len() == count,
                    Err(_) => ps.len() < count,
                }
            }),
            match r {
                Ok(v) => {
                    &&& v@.len() == count
                    &&& forall|i: int, j: int| 0 <= i < j < v@.len() ==> v@[i] != v@[j]
                    &&& forall|i: int| 0 <= i < v@.len() ==> v@[i] < bound
                },
                Err(_) => true,
            },
    {
        let ghost seed0 = self.seed_bytes();
        let ghost ctr0 = self.ctr();
        let ghost goal = draw_ints_rec(
            seed0,
            ctr0,
            bound,
            count as nat,
            DRAW_FUEL as nat,
            Seq::empty(),
        );
        let mut acc: Vec<u64> = Vec::new();
        let mut fuel: u64 = DRAW_FUEL;
        while acc.len() < count && fuel > 0
            invariant
                bound >= 1,
                self.seed_bytes() == seed0,
                fuel <= DRAW_FUEL,
                acc@.len() <= count,
                draw_ints_rec(seed0, self.ctr(), bound, count as nat, fuel as nat, acc@) == goal,
                forall|i: int, j: int| 0 <= i < j < acc@.len() ==> acc@[i] != acc@[j],
                forall|i: int| 0 <= i < acc@.len() ==> acc@[i] < bound,
            decreases fuel,
        {
            let v = self.draw_u64();
            let p = v % bound;
            if !contains_u64(&acc, p) {
                acc.push(p);
            }
            fuel = fuel - 1;
        }
        proof {
            // the loop stopped in exactly the state the recursion ends in
            assert(draw_ints_rec(seed0, self.ctr(), bound, count as nat, fuel as nat, acc@)
                == (acc@, self.ctr()));
        }
        if acc.len() == count {
            Ok(acc)
        } else {
            Err(RandomCoinError::FailedToDrawIntegers)
        }
    }
}

/// Whether the vector holds the value.
pub fn contains_u64(v: &Vec<u64>, x: u64) -> (r: bool)
    ensures
        r <==> v@.contains(x),
{
    let mut i: usize = 0;
    while i < v.len()
        invariant
            i <= v.len(),
            forall|j: int| 0 <= j < i ==> v@[j] != x,
        decreases v.len() - i,
    {
        if v[i] == x {
            return true;
        }
        i += 1;
    }
    false
}

/// The prover's side of the transcript: absorbs layer commitments and hands
/// out the same challenges and query positions the verifier will re-derive.
pub struct DefaultProverChannel {
    coin: RandomCoin,
    commitments: Vec<ByteDigest>,
    domain_size: usize,
    num_queries: usize,
}

impl DefaultProverChannel {
    pub closed spec fn coin_seed(self) -> Seq<u8> {
        self.coin.seed_bytes()
    }

    pub closed spec fn coin_ctr(self) -> u64 {
        self.coin.ctr()
    }

    pub closed spec fn commitments_view(self) -> Seq<ByteDigest> {
        self.commitments@
    }

    pub closed spec fn domain_size_spec(self) -> nat {
        self.domain_size as nat
    }

    pub closed spec fn num_queries_spec(self) -> nat {
        self.num_queries as nat
    }

    /// A fresh channel over a domain of `domain_size` points that will draw
    /// `num_queries` query positions; the coin starts from the hash of the
    /// empty seed.
    pub fn new(domain_size: usize, num_queries: usize) -> (r: DefaultProverChannel)
        requires
            domain_size >= 1,
        ensures
            r.coin_seed() == blake2s_of(Seq::<u8>::empty()),
            r.coin_ctr() == 0,
            r.commitments_view() == Seq::<ByteDigest>::empty(),
            r.domain_size_spec() == domain_size as nat,
            r.num_queries_spec() == num_queries as nat,
    {
        let empty: [u8; 0] = [];
        let coin = RandomCoin::new(empty.as_slice());
        proof {
            assert(empty@ =~= Seq::<u8>::empty());
        }
        DefaultProverChannel { coin, commitments: Vec::new(), domain_size, num_queries }
    }

    /// Record one layer commitment and absorb it into the transcript.
    pub fn commit_fri_layer(&mut self, d: ByteDigest)
        ensures
            final(self).commitments_view() == old(self).commitments_view().push(d),
            final(self).coin_seed() == blake2s_of(old(self).coin_seed() + d@),
            final(self).coin_ctr() == 0,
            final(self).domain_size_spec() == old(self).domain_size_spec(),
            final(self).num_queries_spec() == old(self).num_queries_spec(),
    {
        self.commitments.push(d);
        self.coin.reseed(&d);
    }

    /// Draw the folding challenge for the layer just committed.
    pub fn draw_fri_alpha(&mut self) -> (r: Felt)
        ensures
            final(self).coin_seed() == old(self).coin_seed(),
            final(self).coin_ctr() == next_ctr(old(self).coin_ctr()),
            final(self).commitments_view() == old(self).commitments_view(),
            final(self).domain_size_spec() == old(self).domain_size_spec(),
            final(self).num_queries_spec() == old(self).num_queries_spec(),
            r.val() == draw_felt_spec(old(self).coin_seed(), next_ctr(old(self).coin_ctr())),
    {
        self.coin.draw_felt()
    }

    /// Draw the distinct base-domain query positions; callable once all layer
    /// commitments are absorbed.
    pub fn draw_query_positions(&mut self) -> (r: Result<Vec<usize>, RandomCoinError>)
        requires
            old(self).domain_size_spec() >= 1,
        ensures
            final(self).coin_seed() == old(self).coin_seed(),
            final(self).commitments_view() == old(self).commitments_view(),
            final(self).domain_size_spec() == old(self).domain_size_spec(),
            final(self).num_queries_spec() == old(self).num_queries_spec(),
            ({
                let (ps, c2) = draw_ints_rec(
                    old(self).coin_seed(),
                    old(self).coin_ctr(),
                    old(self).domain_size_spec() as u64,
                    old(self).num_queries_spec(),
                    DRAW_FUEL as nat,
                    Seq::empty(),
                );
                &&& final(self).coin_ctr() == c2
                &&& match r {
                    Ok(v) => v@.map(|i: int, p: usize| p as u64) == ps && ps.len() == old(
                        self,
                    ).num_queries_spec(),
                    Err(_) => ps.len() < old(self).num_queries_spec(),
                }
            }),
            match r {
                Ok(v) => {
                    &&& v@.len() == old(self).num_queries_spec()
                    &&& forall|i: int, j: int| 0 <= i < j < v@.len() ==> v@[i] != v@[j]
                    &&& forall|i: int|
                        0 <= i < v@.len() ==> (v@[i] as nat) < old(self).domain_size_spec()
                },
                Err(_) => true,
            },
    {
        let bound = self.domain_size as u64;
        let drawn = self.coin.draw_integers(self.num_queries, bound);
        match drawn {
            Ok(vals) => {
                let mut out: Vec<usize> = Vec::new();
                let mut i: usize = 0;
                while i < vals.len()
                    invariant
                        i <= vals@.len(),
                        out@.len() == i,
                        forall|j: int| 0 <= j < i ==> out@[j] as u64 == vals@[j],
                        forall|j: int| 0 <= j < vals@.len() ==> vals@[j] < bound,
                        bound <= usize::MAX,
                    decreases vals@.len() - i,
                {
                    let p = vals[i];
                    out.push(p as usize);
                    i += 1;
                }
                proof {
                    assert(out@.map(|i: int, p: usize| p as u64) =~= vals@);
                    assert forall|a: int, b: int| 0 <= a < b < out@.len() implies out@[a]
                        != out@[b] by {
                        assert(out@[a] as u64 == vals@[a]);
                        assert(out@[b] as u64 == vals@[b]);
                    }
                    assert forall|a: int| 0 <= a < out@.len() implies (out@[a] as nat) < old(
                        self,
                    ).domain_size_spec() by {
                        assert(out@[a] as u64 == vals@[a]);
                        assert(vals@[a] < bound);
                    }
                }
                Ok(out)
            },
            Err(e) => Err(e),
        }
    }

    /// The commitments recorded so far, in order.
    pub fn layer_commitments(&self) -> (r: &Vec<ByteDigest>)
        ensures
            r@ == self.commitments_view(),
    {
        &self.commitments
    }
}

/// A prover channel sized for a trace of `trace_length` rows blown up by the
/// options' blowup factor, drawing 32 query positions.
pub fn build_prover_channel(trace_length: usize, options: &FriOptions) -> (r: DefaultProverChannel)
    requires
        trace_length >= 1,
        trace_length * options.blowup() <= usize::MAX,
    ensures
        r.coin_seed() == blake2s_of(Seq::<u8>::empty()),
        r.coin_ctr() == 0,
        r.commitments_view() == Seq::<ByteDigest>::empty(),
        r.domain_size_spec() == trace_length as nat * options.blowup(),
        r.num_queries_spec() == 32,
{
    let blowup = options.blowup_factor();
    proof {
        assert(trace_length * blowup >= 1) by (nonlinear_arith)
            requires trace_length >= 1, blowup >= 1,
        ;
    }
    DefaultProverChannel::new(trace_length * blowup, 32)
}

} // verus!
