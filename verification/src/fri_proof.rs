//! The proof artifact and its self-describing binary layout: layer count and
//! folding factor, then per layer a digest and its length-prefixed openings,
//! then the remainder coefficients. Deserializing a serialized proof gives
//! back the same proof.

use vstd::prelude::*;

verus! {

use vstd::arithmetic::div_mod::lemma_small_mod;
use vstd::bytes::{
    lemma_auto_spec_u64_to_from_le_bytes, spec_u64_from_le_bytes, spec_u64_to_le_bytes,
    u64_from_le_bytes, u64_to_le_bytes,
};
use vstd::slice::slice_subrange;
use crate::field::{Felt, FIELD_MODULUS};
use crate::fold::vals_of;
use crate::hashing::ByteDigest;
use crate::merkle::digests_view;

/// The layout's documented size limit: no length prefix — layer count,
/// opening count, values or path per opening, remainder length — may exceed
/// this bound. The writer refuses larger proofs and the parser rejects
/// larger counts as malformed, which also keeps parsing's recursion depth
/// bounded on adversarial input.
pub const FORMAT_COUNT_LIMIT: u64 = 16384;

/// One opened position of one layer: the position, its coset's values, and
/// the authentication path binding them to the layer commitment.
#[derive(Clone, PartialEq, Eq, Debug)]
pub struct LayerOpening {
    pub position: u64,
    pub values: Vec<Felt>,
    pub path: Vec<ByteDigest>,
}

/// One committed layer of the proof.
#[derive(Clone, PartialEq, Eq, Debug)]
pub struct ProofLayer {
    pub commitment: ByteDigest,
    pub openings: Vec<LayerOpening>,
}

/// The transmitted artifact: the folding factor, the committed layers with
/// their openings, and the final remainder coefficients in the clear.
#[derive(Clone, PartialEq, Eq, Debug)]
pub struct FriProof {
    pub folding_factor: u64,
    pub layers: Vec<ProofLayer>,
    pub remainder: Vec<Felt>,
}

/// The mathematical content of a `LayerOpening`.
#[verifier::ext_equal]
pub struct OpeningModel {
    pub position: u64,
    pub values: Seq<int>,
    pub path: Seq<Seq<u8>>,
}

/// The mathematical content of a `ProofLayer`.
#[verifier::ext_equal]
pub struct LayerModel {
    pub commitment: Seq<u8>,
    pub openings: Seq<OpeningModel>,
}

/// The mathematical content of a `FriProof`.
#[verifier::ext_equal]
pub struct ProofModel {
    pub folding_factor: u64,
    pub layers: Seq<LayerModel>,
    pub remainder: Seq<int>,
}

impl View for LayerOpening {
    type V = OpeningModel;

    open spec fn view(&self) -> OpeningModel {
        OpeningModel {
            position: self.position,
            values: vals_of(self.values@),
            path: digests_view(self.path@),
        }
    }
}

impl View for ProofLayer {
    type V = LayerModel;

    open spec fn view(&self) -> LayerModel {
        LayerModel {
            commitment: self.commitment@,
            openings: self.openings@.map(|i: int, o: LayerOpening| o@),
        }
    }
}

impl View for FriProof {
    type V = ProofModel;

    open spec fn view(&self) -> ProofModel {
        ProofModel {
            folding_factor: self.folding_factor,
            layers: self.layers@.map(|i: int, l: ProofLayer| l@),
            remainder: vals_of(self.remainder@),
        }
    }
}

// ---------------------------------------------------------------------------
// well-formedness: what the layout can carry
// ---------------------------------------------------------------------------

/// Every value reduced, and the count within the layout's limit.
pub open spec fn wf_felts(vs: Seq<int>) -> bool {
    &&& vs.len() <= FORMAT_COUNT_LIMIT
    &&& forall|i: int| 0 <= i < vs.len() ==> 0 <= #[trigger] vs[i] < FIELD_MODULUS as int
}

/// Every path digest 32 bytes, counts within the layout's limit.
pub open spec fn wf_opening(o: OpeningModel) -> bool {
    &&& wf_felts(o.values)
    &&& o.path.len() <= FORMAT_COUNT_LIMIT
    &&& forall|i: int| 0 <= i < o.path.len() ==> (#[trigger] o.path[i]).len() == 32
}

pub open spec fn wf_layer(l: LayerModel) -> bool {
    &&& l.commitment.len() == 32
    &&& l.openings.len() <= FORMAT_COUNT_LIMIT
    &&& forall|i: int| 0 <= i < l.openings.len() ==> wf_opening(#[trigger] l.openings[i])
}

pub open spec fn wf_proof(p: ProofModel) -> bool {
    &&& p.layers.len() <= FORMAT_COUNT_LIMIT
    &&& forall|i: int| 0 <= i < p.layers.len() ==> wf_layer(#[trigger] p.layers[i])
    &&& wf_felts(p.remainder)
}

// ---------------------------------------------------------------------------
// the layout, written
// ---------------------------------------------------------------------------

pub open spec fn ser_u64(v: u64) -> Seq<u8> {
    spec_u64_to_le_bytes(v)
}

pub open spec fn ser_felts(vs: Seq<int>) -> Seq<u8>
    decreases vs.len(),
{
    if vs.len() == 0 {
        Seq::empty()
    } else {
        ser_u64(vs[0] as u64) + ser_felts(vs.drop_first())
    }
}

pub open spec fn ser_digests(ds: Seq<Seq<u8>>) -> Seq<u8>
    decreases ds.len(),
{
    if ds.len() == 0 {
        Seq::empty()
    } else {
        ds[0] + ser_digests(ds.drop_first())
    }
}

pub open spec fn ser_opening(o: OpeningModel) -> Seq<u8> {
    ser_u64(o.position) + ser_u64(o.values.len() as u64) + ser_felts(o.values) + ser_u64(
        o.path.len() as u64,
    ) + ser_digests(o.path)
}

pub open spec fn ser_openings(os: Seq<OpeningModel>) -> Seq<u8>
    decreases os.len(),
{
    if os.len() == 0 {
        Seq::empty()
    } else {
        ser_opening(os[0]) + ser_openings(os.drop_first())
    }
}

pub open spec fn ser_layer(l: LayerModel) -> Seq<u8> {
    l.commitment + ser_u64(l.openings.len() as u64) + ser_openings(l.openings)
}

pub open spec fn ser_layers(ls: Seq<LayerModel>) -> Seq<u8>
    decreases ls.len(),
{
    if ls.len() == 0 {
        Seq::empty()
    } else {
        ser_layer(ls[0]) + ser_layers(ls.drop_first())
    }
}

pub open spec fn ser_proof(p: ProofModel) -> Seq<u8> {
    ser_u64(p.layers.len() as u64) + ser_u64(p.folding_factor) + ser_layers(p.layers) + ser_u64(
        p.remainder.len() as u64,
    ) + ser_felts(p.remainder)
}

// ---------------------------------------------------------------------------
// the layout, read back: each parser consumes from the front and returns the
// rest
// ---------------------------------------------------------------------------

pub open spec fn take_u64(b: Seq<u8>) -> Option<(u64, Seq<u8>)> {
    if b.len() >= 8 {
        Some((spec_u64_from_le_bytes(b.take(8)), b.skip(8)))
    } else {
        None
    }
}

pub open spec fn take_felts(b: Seq<u8>, count: nat) -> Option<(Seq<int>, Seq<u8>)>
    decreases count,
{
    if count == 0 {
        Some((Seq::empty(), b))
    } else {
        match take_u64(b) {
            None => None,
            Some((v, r)) => if v < FIELD_MODULUS {
                match take_felts(r, (count - 1) as nat) {
                    None => None,
                    Some((vs, r2)) => Some((seq![v as int] + vs, r2)),
                }
            } else {
                None
            },
        }
    }
}

pub open spec fn take_digest(b: Seq<u8>) -> Option<(Seq<u8>, Seq<u8>)> {
    if b.len() >= 32 {
        Some((b.take(32), b.skip(32)))
    } else {
        None
    }
}

pub open spec fn take_digests(b: Seq<u8>, count: nat) -> Option<(Seq<Seq<u8>>, Seq<u8>)>
    decreases count,
{
    if count == 0 {
        Some((Seq::empty(), b))
    } else {
        match take_digest(b) {
            None => None,
            Some((d, r)) => match take_digests(r, (count - 1) as nat) {
                None => None,
                Some((ds, r2)) => Some((seq![d] + ds, r2)),
            },
        }
    }
}

/// A length prefix: a count no larger than the layout's limit.
pub open spec fn take_count(b: Seq<u8>) -> Option<(u64, Seq<u8>)> {
    match take_u64(b) {
        None => None,
        Some((v, r)) => if v <= FORMAT_COUNT_LIMIT {
            Some((v, r))
        } else {
            None
        },
    }
}

pub open spec fn take_opening(b: Seq<u8>) -> Option<(OpeningModel, Seq<u8>)> {
    match take_u64(b) {
        None => None,
        Some((position, r1)) => match take_count(r1) {
            None => None,
            Some((vc, r2)) => match take_felts(r2, vc as nat) {
                None => None,
                Some((values, r3)) => match take_count(r3) {
                    None => None,
                    Some((pc, r4)) => match take_digests(r4, pc as nat) {
                        None => None,
                        Some((path, r5)) => Some(
                            (OpeningModel { position, values, path }, r5),
                        ),
                    },
                },
            },
        },
    }
}

pub open spec fn take_openings(b: Seq<u8>, count: nat) -> Option<(Seq<OpeningModel>, Seq<u8>)>
    decreases count,
{
    if count == 0 {
        Some((Seq::empty(), b))
    } else {
        match take_opening(b) {
            None => None,
            Some((o, r)) => match take_openings(r, (count - 1) as nat) {
                None => None,
                Some((os, r2)) => Some((seq![o] + os, r2)),
            },
        }
    }
}

pub open spec fn take_layer(b: Seq<u8>) -> Option<(LayerModel, Seq<u8>)> {
    match take_digest(b) {
        None => None,
        Some((commitment, r1)) => match take_count(r1) {
            None => None,
            Some((oc, r2)) => match take_openings(r2, oc as nat) {
                None => None,
                Some((openings, r3)) => Some((LayerModel { commitment, openings }, r3)),
            },
        },
    }
}

pub open spec fn take_layers(b: Seq<u8>, count: nat) -> Option<(Seq<LayerModel>, Seq<u8>)>
    decreases count,
{
    if count == 0 {
        Some((Seq::empty(), b))
    } else {
        match take_layer(b) {
            None => None,
            Some((l, r)) => match take_layers(r, (count - 1) as nat) {
                None => None,
                Some((ls, r2)) => Some((seq![l] + ls, r2)),
            },
        }
    }
}

/// Parse a whole proof; the bytes must be consumed exactly.
pub open spec fn parse_proof(b: Seq<u8>) -> Option<ProofModel> {
    match take_count(b) {
        None => None,
        Some((lc, r1)) => match take_u64(r1) {
            None => None,
            Some((folding_factor, r2)) => match take_layers(r2, lc as nat) {
                None => None,
                Some((layers, r3)) => match take_count(r3) {
                    None => None,
                    Some((rc, r4)) => match take_felts(r4, rc as nat) {
                        None => None,
                        Some((remainder, r5)) => if r5.len() == 0 {
                            Some(ProofModel { folding_factor, layers, remainder })
                        } else {
                            None
                        },
                    },
                },
            },
        },
    }
}

// ---------------------------------------------------------------------------
// the round trip
// ---------------------------------------------------------------------------

proof fn lemma_take_u64_ser(v: u64, rest: Seq<u8>)
    ensures
        ser_u64(v).len() == 8,
        take_u64(ser_u64(v) + rest) == Some((v, rest)),
{
    lemma_auto_spec_u64_to_from_le_bytes();
    assert((ser_u64(v) + rest).take(8) =~= ser_u64(v));
    assert((ser_u64(v) + rest).skip(8) =~= rest);
}

proof fn lemma_take_count_ser(v: u64, rest: Seq<u8>)
    requires
        v <= FORMAT_COUNT_LIMIT,
    ensures
        take_count(ser_u64(v) + rest) == Some((v, rest)),
{
    lemma_take_u64_ser(v, rest);
}

proof fn lemma_take_felts_ser(vs: Seq<int>, rest: Seq<u8>)
    requires
        forall|i: int| 0 <= i < vs.len() ==> 0 <= #[trigger] vs[i] < FIELD_MODULUS as int,
    ensures
        take_felts(ser_felts(vs) + rest, vs.len()) == Some((vs, rest)),
    decreases vs.len(),
{
    if vs.len() == 0 {
        assert(ser_felts(vs) + rest =~= rest);
    } else {
        let v0: u64 = vs[0] as u64;
        let tail = vs.drop_first();
        assert(ser_felts(vs) + rest =~= ser_u64(v0) + (ser_felts(tail) + rest));
        lemma_take_u64_ser(v0, ser_felts(tail) + rest);
        lemma_take_felts_ser(tail, rest);
        assert(seq![v0 as int] + tail =~= vs);
    }
}

proof fn lemma_take_digests_ser(ds: Seq<Seq<u8>>, rest: Seq<u8>)
    requires
        forall|i: int| 0 <= i < ds.len() ==> (#[trigger] ds[i]).len() == 32,
    ensures
        take_digests(ser_digests(ds) + rest, ds.len()) == Some((ds, rest)),
    decreases ds.len(),
{
    if ds.len() == 0 {
        assert(ser_digests(ds) + rest =~= rest);
    } else {
        let d0 = ds[0];
        let tail = ds.drop_first();
        let inner = ser_digests(tail) + rest;
        assert(ser_digests(ds) + rest =~= d0 + inner);
        assert((d0 + inner).take(32) =~= d0);
        assert((d0 + inner).skip(32) =~= inner);
        lemma_take_digests_ser(tail, rest);
        assert(seq![d0] + tail =~= ds);
    }
}

proof fn lemma_take_opening_ser(o: OpeningModel, rest: Seq<u8>)
    requires
        wf_opening(o),
    ensures
        take_opening(ser_opening(o) + rest) == Some((o, rest)),
{
    let b1 = ser_u64(o.values.len() as u64) + ser_felts(o.values) + ser_u64(o.path.len() as u64)
        + ser_digests(o.path) + rest;
    assert(ser_opening(o) + rest =~= ser_u64(o.position) + b1);
    lemma_take_u64_ser(o.position, b1);
    let b2 = ser_felts(o.values) + ser_u64(o.path.len() as u64) + ser_digests(o.path) + rest;
    assert(b1 =~= ser_u64(o.values.len() as u64) + b2);
    lemma_take_count_ser(o.values.len() as u64, b2);
    let b3 = ser_u64(o.path.len() as u64) + ser_digests(o.path) + rest;
    assert(b2 =~= ser_felts(o.values) + b3);
    lemma_take_felts_ser(o.values, b3);
    let b4 = ser_digests(o.path) + rest;
    assert(b3 =~= ser_u64(o.path.len() as u64) + b4);
    lemma_take_count_ser(o.path.len() as u64, b4);
    lemma_take_digests_ser(o.path, rest);
    assert(take_opening(ser_opening(o) + rest) == Some((o, rest)));
}

proof fn lemma_take_openings_ser(os: Seq<OpeningModel>, rest: Seq<u8>)
    requires
        forall|i: int| 0 <= i < os.len() ==> wf_opening(#[trigger] os[i]),
    ensures
        take_openings(ser_openings(os) + rest, os.len()) == Some((os, rest)),
    decreases os.len(),
{
    if os.len() == 0 {
        assert(ser_openings(os) + rest =~= rest);
    } else {
        let tail = os.drop_first();
        assert(ser_openings(os) + rest =~= ser_opening(os[0]) + (ser_openings(tail) + rest));
        lemma_take_opening_ser(os[0], ser_openings(tail) + rest);
        lemma_take_openings_ser(tail, rest);
        assert(seq![os[0]] + tail =~= os);
    }
}

proof fn lemma_take_layer_ser(l: LayerModel, rest: Seq<u8>)
    requires
        wf_layer(l),
    ensures
        take_layer(ser_layer(l) + rest) == Some((l, rest)),
{
    let b1 = ser_u64(l.openings.len() as u64) + ser_openings(l.openings) + rest;
    assert(ser_layer(l) + rest =~= l.commitment + b1);
    assert((l.commitment + b1).take(32) =~= l.commitment);
    assert((l.commitment + b1).skip(32) =~= b1);
    let b2 = ser_openings(l.openings) + rest;
    assert(b1 =~= ser_u64(l.openings.len() as u64) + b2);
    lemma_take_count_ser(l.openings.len() as u64, b2);
    lemma_take_openings_ser(l.openings, rest);
}

proof fn lemma_take_layers_ser(ls: Seq<LayerModel>, rest: Seq<u8>)
    requires
        forall|i: int| 0 <= i < ls.len() ==> wf_layer(#[trigger] ls[i]),
    ensures
        take_layers(ser_layers(ls) + rest, ls.len()) == Some((ls, rest)),
    decreases ls.len(),
{
    if ls.len() == 0 {
        assert(ser_layers(ls) + rest =~= rest);
    } else {
        let tail = ls.drop_first();
        assert(ser_layers(ls) + rest =~= ser_layer(ls[0]) + (ser_layers(tail) + rest));
        lemma_take_layer_ser(ls[0], ser_layers(tail) + rest);
        lemma_take_layers_ser(tail, rest);
        assert(seq![ls[0]] + tail =~= ls);
    }
}

// ---------------------------------------------------------------------------
// writing
// ---------------------------------------------------------------------------

/// Append the little-endian bytes of `v`.
fn write_u64(out: &mut Vec<u8>, v: u64)
    ensures
        final(out)@ == old(out)@ + ser_u64(v),
{
    let bytes = u64_to_le_bytes(v);
    out.extend_from_slice(bytes.as_slice());
}

fn write_felts(out: &mut Vec<u8>, vs: &Vec<Felt>, i: usize)
    requires
        i <= vs@.len(),
    ensures
        final(out)@ == old(out)@ + ser_felts(vals_of(vs@).skip(i as int)),
    decreases vs@.len() - i,
{
    let ghost tail = vals_of(vs@).skip(i as int);
    if i < vs.len() {
        let ghost before = out@;
        write_u64(out, vs[i].as_u64());
        write_felts(out, vs, i + 1);
        proof {
            assert(tail[0] == vals_of(vs@)[i as int]);
            assert(tail.drop_first() =~= vals_of(vs@).skip(i + 1));
            assert(out@ =~= before + ser_felts(tail));
        }
    } else {
        proof {
            assert(tail =~= Seq::<int>::empty());
            assert(out@ =~= old(out)@ + ser_felts(tail));
        }
    }
}

fn write_digests(out: &mut Vec<u8>, ds: &Vec<ByteDigest>, i: usize)
    requires
        i <= ds@.len(),
    ensures
        final(out)@ == old(out)@ + ser_digests(digests_view(ds@).skip(i as int)),
    decreases ds@.len() - i,
{
    let ghost tail = digests_view(ds@).skip(i as int);
    if i < ds.len() {
        let ghost before = out@;
        out.extend_from_slice(ds[i].0.as_slice());
        write_digests(out, ds, i + 1);
        proof {
            assert(tail[0] == digests_view(ds@)[i as int]);
            assert(tail.drop_first() =~= digests_view(ds@).skip(i + 1));
            assert(out@ =~= before + ser_digests(tail));
        }
    } else {
        proof {
            assert(tail =~= Seq::<Seq<u8>>::empty());
            assert(out@ =~= old(out)@ + ser_digests(tail));
        }
    }
}

fn write_opening(out: &mut Vec<u8>, o: &LayerOpening)
    ensures
        final(out)@ == old(out)@ + ser_opening(o@),
{
    write_u64(out, o.position);
    write_u64(out, o.values.len() as u64);
    write_felts(out, &o.values, 0);
    write_u64(out, o.path.len() as u64);
    write_digests(out, &o.path, 0);
    proof {
        assert(vals_of(o.values@).skip(0) =~= vals_of(o.values@));
        assert(digests_view(o.path@).skip(0) =~= digests_view(o.path@));
        assert(out@ =~= old(out)@ + ser_opening(o@));
    }
}

fn write_openings(out: &mut Vec<u8>, os: &Vec<LayerOpening>, i: usize)
    requires
        i <= os@.len(),
    ensures
        final(out)@ == old(out)@ + ser_openings(os@.map(|k: int, o: LayerOpening| o@).skip(i as int)),
    decreases os@.len() - i,
{
    let ghost tail = os@.map(|k: int, o: LayerOpening| o@).skip(i as int);
    if i < os.len() {
        let ghost before = out@;
        write_opening(out, &os[i]);
        write_openings(out, os, i + 1);
        proof {
            assert(tail[0] == os@.map(|k: int, o: LayerOpening| o@)[i as int]);
            assert(tail.drop_first() =~= os@.map(|k: int, o: LayerOpening| o@).skip(i + 1));
            assert(out@ =~= before + ser_openings(tail));
        }
    } else {
        proof {
            assert(tail =~= Seq::<OpeningModel>::empty());
            assert(out@ =~= old(out)@ + ser_openings(tail));
        }
    }
}

fn write_layer(out: &mut Vec<u8>, l: &ProofLayer)
    ensures
        final(out)@ == old(out)@ + ser_layer(l@),
{
    out.extend_from_slice(l.commitment.0.as_slice());
    write_u64(out, l.openings.len() as u64);
    write_openings(out, &l.openings, 0);
    proof {
        assert(l@.openings.skip(0) =~= l@.openings);
        assert(out@ =~= old(out)@ + ser_layer(l@));
    }
}

fn write_layers(out: &mut Vec<u8>, ls: &Vec<ProofLayer>, i: usize)
    requires
        i <= ls@.len(),
    ensures
        final(out)@ == old(out)@ + ser_layers(ls@.map(|k: int, l: ProofLayer| l@).skip(i as int)),
    decreases ls@.len() - i,
{
    let ghost tail = ls@.map(|k: int, l: ProofLayer| l@).skip(i as int);
    if i < ls.len() {
        let ghost before = out@;
        write_layer(out, &ls[i]);
        write_layers(out, ls, i + 1);
        proof {
            assert(tail[0] == ls@.map(|k: int, l: ProofLayer| l@)[i as int]);
            assert(tail.drop_first() =~= ls@.map(|k: int, l: ProofLayer| l@).skip(i + 1));
            assert(out@ =~= before + ser_layers(tail));
        }
    } else {
        proof {
            assert(tail =~= Seq::<LayerModel>::empty());
            assert(out@ =~= old(out)@ + ser_layers(tail));
        }
    }
}

impl FriProof {
    /// The proof's binary layout. The counts must respect the format's
    /// documented limit (`FORMAT_COUNT_LIMIT`), as the parser will reject
    /// anything larger.
    pub fn to_bytes(&self) -> (out: Vec<u8>)
        requires
            self@.layers.len() <= FORMAT_COUNT_LIMIT,
            self@.remainder.len() <= FORMAT_COUNT_LIMIT,
        ensures
            out@ == ser_proof(self@),
    {
        let mut out: Vec<u8> = Vec::new();
        write_u64(&mut out, self.layers.len() as u64);
        write_u64(&mut out, self.folding_factor);
        write_layers(&mut out, &self.layers, 0);
        write_u64(&mut out, self.remainder.len() as u64);
        write_felts(&mut out, &self.remainder, 0);
        proof {
            assert(self@.layers.skip(0) =~= self@.layers);
            assert(vals_of(self.remainder@).skip(0) =~= vals_of(self.remainder@));
            assert(out@ =~= ser_proof(self@));
        }
        out
    }

    /// Parse a proof from its binary layout; `None` exactly when the bytes are
    /// not the layout of any proof.
    pub fn from_bytes(bytes: &[u8]) -> (r: Option<FriProof>)
        ensures
            match r {
                Some(p) => parse_proof(bytes@) == Some(p@),
                None => parse_proof(bytes@) is None,
            },
    {
        proof {
            assert(bytes@.skip(0) =~= bytes@);
        }
        let (lc, p1) = match read_count(bytes, 0) {
            None => { return None; },
            Some(x) => x,
        };
        let (ff, p2) = match read_u64_at(bytes, p1) {
            None => { return None; },
            Some(x) => x,
        };
        let (layers, p3) = match read_layers(bytes, p2, lc) {
            None => { return None; },
            Some(x) => x,
        };
        let (rc, p4) = match read_count(bytes, p3) {
            None => { return None; },
            Some(x) => x,
        };
        let (remainder, p5) = match read_felts(bytes, p4, rc) {
            None => { return None; },
            Some(x) => x,
        };
        if p5 != bytes.len() {
            return None;
        }
        Some(FriProof { folding_factor: ff, layers, remainder })
    }
}

// ---------------------------------------------------------------------------
// reading
// ---------------------------------------------------------------------------

fn read_u64_at(bytes: &[u8], pos: usize) -> (r: Option<(u64, usize)>)
    requires
        pos <= bytes@.len(),
    ensures
        match r {
            Some((v, p2)) => {
                &&& pos <= p2 <= bytes@.len()
                &&& take_u64(bytes@.skip(pos as int)) == Some((v, bytes@.skip(p2 as int)))
            },
            None => take_u64(bytes@.skip(pos as int)) is None,
        },
{
    if bytes.len() - pos >= 8 {
        let s = slice_subrange(bytes, pos, pos + 8);
        let v = u64_from_le_bytes(s);
        proof {
            assert(bytes@.skip(pos as int).take(8) =~= bytes@.subrange(pos as int, pos + 8));
            assert(bytes@.skip(pos as int).skip(8) =~= bytes@.skip(pos + 8));
        }
        Some((v, pos + 8))
    } else {
        None
    }
}

fn read_count(bytes: &[u8], pos: usize) -> (r: Option<(u64, usize)>)
    requires
        pos <= bytes@.len(),
    ensures
        match r {
            Some((v, p2)) => {
                &&& pos <= p2 <= bytes@.len()
                &&& v <= FORMAT_COUNT_LIMIT
                &&& take_count(bytes@.skip(pos as int)) == Some((v, bytes@.skip(p2 as int)))
            },
            None => take_count(bytes@.skip(pos as int)) is None,
        },
{
    match read_u64_at(bytes, pos) {
        None => None,
        Some((v, p2)) => {
            if v <= FORMAT_COUNT_LIMIT {
                Some((v, p2))
            } else {
                None
            }
        },
    }
}

fn read_felts(bytes: &[u8], pos: usize, count: u64) -> (r: Option<(Vec<Felt>, usize)>)
    requires
        pos <= bytes@.len(),
        count <= FORMAT_COUNT_LIMIT,
    ensures
        match r {
            Some((vs, p2)) => {
                &&& pos <= p2 <= bytes@.len()
                &&& take_felts(bytes@.skip(pos as int), count as nat) == Some(
                    (vals_of(vs@), bytes@.skip(p2 as int)),
                )
            },
            None => take_felts(bytes@.skip(pos as int), count as nat) is None,
        },
    decreases count,
{
    if count == 0 {
        let vs: Vec<Felt> = Vec::new();
        proof {
            assert(vals_of(vs@) =~= Seq::<int>::empty());
        }
        Some((vs, pos))
    } else {
        match read_u64_at(bytes, pos) {
            None => None,
            Some((v, p1)) => {
                if v < FIELD_MODULUS {
                    let f = Felt::new(v);
                    proof {
                        lemma_small_mod(v as nat, FIELD_MODULUS as nat);
                    }
                    match read_felts(bytes, p1, count - 1) {
                        None => None,
                        Some((mut vs, p2)) => {
                            vs.insert(0, f);
                            proof {
                                assert(vals_of(vs@) =~= seq![v as int] + vals_of(
                                    vs@.drop_first(),
                                ));
                            }
                            Some((vs, p2))
                        },
                    }
                } else {
                    None
                }
            },
        }
    }
}

fn read_digest(bytes: &[u8], pos: usize) -> (r: Option<(ByteDigest, usize)>)
    requires
        pos <= bytes@.len(),
    ensures
        match r {
            Some((d, p2)) => {
                &&& pos <= p2 <= bytes@.len()
                &&& take_digest(bytes@.skip(pos as int)) == Some((d@, bytes@.skip(p2 as int)))
            },
            None => take_digest(bytes@.skip(pos as int)) is None,
        },
{
    if bytes.len() - pos >= 32 {
        let s = slice_subrange(bytes, pos, pos + 32);
        let mut arr = [0u8; 32];
        let mut i: usize = 0;
        while i < 32
            invariant
                i <= 32,
                s@.len() == 32,
                arr@.len() == 32,
                forall|j: int| 0 <= j < i ==> arr@[j] == s@[j],
            decreases 32 - i,
        {
            arr[i] = s[i];
            i += 1;
        }
        proof {
            assert(arr@ =~= s@);
            assert(bytes@.skip(pos as int).take(32) =~= bytes@.subrange(pos as int, pos + 32));
            assert(bytes@.skip(pos as int).skip(32) =~= bytes@.skip(pos + 32));
        }
        Some((ByteDigest(arr), pos + 32))
    } else {
        None
    }
}

fn read_digests(bytes: &[u8], pos: usize, count: u64) -> (r: Option<(Vec<ByteDigest>, usize)>)
    requires
        pos <= bytes@.len(),
        count <= FORMAT_COUNT_LIMIT,
    ensures
        match r {
            Some((ds, p2)) => {
                &&& pos <= p2 <= bytes@.len()
                &&& take_digests(bytes@.skip(pos as int), count as nat) == Some(
                    (digests_view(ds@), bytes@.skip(p2 as int)),
                )
            },
            None => take_digests(bytes@.skip(pos as int), count as nat) is None,
        },
    decreases count,
{
    if count == 0 {
        let ds: Vec<ByteDigest> = Vec::new();
        proof {
            assert(digests_view(ds@) =~= Seq::<Seq<u8>>::empty());
        }
        Some((ds, pos))
    } else {
        match read_digest(bytes, pos) {
            None => None,
            Some((d, p1)) => match read_digests(bytes, p1, count - 1) {
                None => None,
                Some((mut ds, p2)) => {
                    ds.insert(0, d);
                    proof {
                        assert(digests_view(ds@) =~= seq![d@] + digests_view(ds@.drop_first()));
                    }
                    Some((ds, p2))
                },
            },
        }
    }
}

fn read_opening(bytes: &[u8], pos: usize) -> (r: Option<(LayerOpening, usize)>)
    requires
        pos <= bytes@.len(),
    ensures
        match r {
            Some((o, p2)) => {
                &&& pos <= p2 <= bytes@.len()
                &&& take_opening(bytes@.skip(pos as int)) == Some((o@, bytes@.skip(p2 as int)))
            },
            None => take_opening(bytes@.skip(pos as int)) is None,
        },
{
    match read_u64_at(bytes, pos) {
        None => None,
        Some((position, p1)) => match read_count(bytes, p1) {
            None => None,
            Some((vc, p2)) => match read_felts(bytes, p2, vc) {
                None => None,
                Some((values, p3)) => match read_count(bytes, p3) {
                    None => None,
                    Some((pc, p4)) => match read_digests(bytes, p4, pc) {
                        None => None,
                        Some((path, p5)) => Some((LayerOpening { position, values, path }, p5)),
                    },
                },
            },
        },
    }
}

fn read_openings(bytes: &[u8], pos: usize, count: u64) -> (r: Option<(Vec<LayerOpening>, usize)>)
    requires
        pos <= bytes@.len(),
        count <= FORMAT_COUNT_LIMIT,
    ensures
        match r {
            Some((os, p2)) => {
                &&& pos <= p2 <= bytes@.len()
                &&& take_openings(bytes@.skip(pos as int), count as nat) == Some(
                    (os@.map(|k: int, o: LayerOpening| o@), bytes@.skip(p2 as int)),
                )
            },
            None => take_openings(bytes@.skip(pos as int), count as nat) is None,
        },
    decreases count,
{
    if count == 0 {
        let os: Vec<LayerOpening> = Vec::new();
        proof {
            assert(os@.map(|k: int, o: LayerOpening| o@) =~= Seq::<OpeningModel>::empty());
        }
        Some((os, pos))
    } else {
        match read_opening(bytes, pos) {
            None => None,
            Some((o, p1)) => match read_openings(bytes, p1, count - 1) {
                None => None,
                Some((mut os, p2)) => {
                    let ghost o_view = o@;
                    os.insert(0, o);
                    proof {
                        assert(os@.map(|k: int, x: LayerOpening| x@) =~= seq![o_view]
                            + os@.drop_first().map(|k: int, x: LayerOpening| x@));
                    }
                    Some((os, p2))
                },
            },
        }
    }
}

fn read_layer(bytes: &[u8], pos: usize) -> (r: Option<(ProofLayer, usize)>)
    requires
        pos <= bytes@.len(),
    ensures
        match r {
            Some((l, p2)) => {
                &&& pos <= p2 <= bytes@.len()
                &&& take_layer(bytes@.skip(pos as int)) == Some((l@, bytes@.skip(p2 as int)))
            },
            None => take_layer(bytes@.skip(pos as int)) is None,
        },
{
    match read_digest(bytes, pos) {
        None => None,
        Some((commitment, p1)) => match read_count(bytes, p1) {
            None => None,
            Some((oc, p2)) => match read_openings(bytes, p2, oc) {
                None => None,
                Some((openings, p3)) => Some((ProofLayer { commitment, openings }, p3)),
            },
        },
    }
}

fn read_layers(bytes: &[u8], pos: usize, count: u64) -> (r: Option<(Vec<ProofLayer>, usize)>)
    requires
        pos <= bytes@.len(),
        count <= FORMAT_COUNT_LIMIT,
    ensures
        match r {
            Some((ls, p2)) => {
                &&& pos <= p2 <= bytes@.len()
                &&& take_layers(bytes@.skip(pos as int), count as nat) == Some(
                    (ls@.map(|k: int, l: ProofLayer| l@), bytes@.skip(p2 as int)),
                )
            },
            None => take_layers(bytes@.skip(pos as int), count as nat) is None,
        },
    decreases count,
{
    if count == 0 {
        let ls: Vec<ProofLayer> = Vec::new();
        proof {
            assert(ls@.map(|k: int, l: ProofLayer| l@) =~= Seq::<LayerModel>::empty());
        }
        Some((ls, pos))
    } else {
        match read_layer(bytes, pos) {
            None => None,
            Some((l, p1)) => match read_layers(bytes, p1, count - 1) {
                None => None,
                Some((mut ls, p2)) => {
                    let ghost l_view = l@;
                    ls.insert(0, l);
                    proof {
                        assert(ls@.map(|k: int, x: ProofLayer| x@) =~= seq![l_view]
                            + ls@.drop_first().map(|k: int, x: ProofLayer| x@));
                    }
                    Some((ls, p2))
                },
            },
        }
    }
}

/// Serialization round trip: parsing the byte layout of a well-formed proof
/// gives back that proof exactly.
pub proof fn lemma_proof_roundtrip(p: ProofModel)
    requires
        wf_proof(p),
    ensures
        parse_proof(ser_proof(p)) == Some(p),
{
    let empty = Seq::<u8>::empty();
    let b1 = ser_u64(p.folding_factor) + ser_layers(p.layers) + ser_u64(p.remainder.len() as u64)
        + ser_felts(p.remainder);
    assert(ser_proof(p) =~= ser_u64(p.layers.len() as u64) + b1);
    lemma_take_count_ser(p.layers.len() as u64, b1);
    let b2 = ser_layers(p.layers) + ser_u64(p.remainder.len() as u64) + ser_felts(p.remainder);
    assert(b1 =~= ser_u64(p.folding_factor) + b2);
    lemma_take_u64_ser(p.folding_factor, b2);
    let b3 = ser_u64(p.remainder.len() as u64) + ser_felts(p.remainder);
    assert(b2 =~= ser_layers(p.layers) + b3);
    lemma_take_layers_ser(p.layers, b3);
    let b4 = ser_felts(p.remainder);
    assert(b3 =~= ser_u64(p.remainder.len() as u64) + b4);
    lemma_take_count_ser(p.remainder.len() as u64, b4);
    assert(b4 =~= ser_felts(p.remainder) + empty);
    lemma_take_felts_ser(p.remainder, empty);
}

} // verus!
