use fri::coin::{build_prover_channel, RandomCoin};
use fri::field::Felt;
use fri::fold::domain_generator;
use fri::fri_proof::FriProof;
use fri::fri_verifier::{DefaultVerifierChannel, FriVerifier, VerifierError};
use fri::hashing::ByteDigest;
use fri::options::FriOptions;
use fri::prover::FriProver;

// PROVE/VERIFY TEST
// ================================================================================================

#[test]
fn fri_folding_2() {
    let trace_length_e = 12;
    let lde_blowup_e = 3;
    let folding_factor_e = 1;
    let max_remainder_size_e = 3;
    fri_prove_verify(
        trace_length_e,
        lde_blowup_e,
        folding_factor_e,
        max_remainder_size_e,
    )
}

#[test]
fn fri_folding_4() {
    let trace_length_e = 12;
    let lde_blowup_e = 3;
    let folding_factor_e = 2;
    let max_remainder_size_e = 8;
    fri_prove_verify(
        trace_length_e,
        lde_blowup_e,
        folding_factor_e,
        max_remainder_size_e,
    )
}

#[test]
fn fri_folding_4_exact_rounds() {
    // same base domain, but the remainder bound is met by a whole number of
    // rounds: 2^15 / 4^4 = 2^7
    fri_prove_verify(12, 3, 2, 7)
}

#[test]
fn soundness_rejects_corrupted_evaluations() {
    let (options, evaluations, _) = small_setup();
    let mut corrupted = evaluations.clone();
    corrupted[5] = corrupted[5].add(Felt::one());
    let outcome = prove_then_verify(&options, &corrupted, 255);
    assert!(matches!(outcome, Err(VerifierError::RemainderDegreeTooHigh)));
}

#[test]
fn determinism_byte_identical_proofs() {
    let (options, evaluations, _) = small_setup();
    let (bytes1, _, positions1) = prove_to_bytes(&options, &evaluations);
    let (bytes2, _, positions2) = prove_to_bytes(&options, &evaluations);
    assert_eq!(positions1, positions2);
    assert_eq!(bytes1, bytes2);
}

#[test]
fn serialization_round_trip() {
    let (options, evaluations, _) = small_setup();
    let (bytes, _, _) = prove_to_bytes(&options, &evaluations);
    let parsed = FriProof::from_bytes(&bytes).expect("a serialized proof parses");
    assert_eq!(parsed.to_bytes(), bytes);
    // truncated bytes are no proof at all
    assert!(FriProof::from_bytes(&bytes[..bytes.len() - 1]).is_none());
    // a small hand-built proof survives the round trip structurally
    let small = FriProof {
        folding_factor: 4,
        layers: Vec::new(),
        remainder: vec![Felt::new(5), Felt::new(0)],
    };
    let reparsed = FriProof::from_bytes(&small.to_bytes()).unwrap();
    assert_eq!(reparsed, small);
}

#[test]
fn tamper_digest_rejected() {
    let (options, evaluations, domain_size) = small_setup();
    let (mut bytes, commitments, positions) = prove_to_bytes(&options, &evaluations);
    // inside the first layer's embedded digest
    bytes[20] ^= 1;
    let outcome = verify_bytes(&bytes, commitments, &evaluations, 255, domain_size, &positions, &options);
    assert!(matches!(outcome, Err(VerifierError::CommitmentMismatch(..))));
}

#[test]
fn tamper_opening_rejected() {
    let (options, evaluations, domain_size) = small_setup();
    let (mut bytes, commitments, positions) = prove_to_bytes(&options, &evaluations);
    // inside the first opened coset value of the first layer
    bytes[72] ^= 1;
    let outcome = verify_bytes(&bytes, commitments, &evaluations, 255, domain_size, &positions, &options);
    assert!(matches!(
        outcome,
        Err(VerifierError::CommitmentMismatch(..)) | Err(VerifierError::FoldingInconsistency(..))
    ));
}

#[test]
fn tamper_auth_path_rejected() {
    let (options, evaluations, domain_size) = small_setup();
    let (mut bytes, commitments, positions) = prove_to_bytes(&options, &evaluations);
    // inside the first authentication-path digest of the first opening
    bytes[100] ^= 1;
    let outcome = verify_bytes(&bytes, commitments, &evaluations, 255, domain_size, &positions, &options);
    assert!(matches!(
        outcome,
        Err(VerifierError::CommitmentMismatch(..)) | Err(VerifierError::FoldingInconsistency(..))
    ));
}

#[test]
fn tamper_remainder_low_coefficient_rejected() {
    let (options, evaluations, domain_size) = small_setup();
    let (mut bytes, commitments, positions) = prove_to_bytes(&options, &evaluations);
    // the constant coefficient of the remainder is the last-but-seven word
    let at = bytes.len() - 64;
    bytes[at] ^= 1;
    let outcome = verify_bytes(&bytes, commitments, &evaluations, 255, domain_size, &positions, &options);
    assert!(matches!(outcome, Err(VerifierError::RemainderMismatch(..))));
}

#[test]
fn tamper_remainder_high_coefficient_rejected() {
    let (options, evaluations, domain_size) = small_setup();
    let (mut bytes, commitments, positions) = prove_to_bytes(&options, &evaluations);
    // the highest remainder coefficient must stay zero
    let at = bytes.len() - 8;
    bytes[at] ^= 1;
    let outcome = verify_bytes(&bytes, commitments, &evaluations, 255, domain_size, &positions, &options);
    assert!(matches!(outcome, Err(VerifierError::RemainderDegreeTooHigh)));
}

#[test]
fn altered_queried_evaluation_rejected() {
    // scenario with base trace 2^12, blowup 2^3, folding factor 2, remainder
    // bound 2^3: verification fails when one claimed evaluation is altered
    let trace_length = 1usize << 12;
    let lde_blowup = 1usize << 3;
    let options = FriOptions::new(lde_blowup, 2, 8);
    let evaluations = build_evaluations(trace_length, lde_blowup);
    let mut channel = build_prover_channel(trace_length, &options);
    let mut prover = FriProver::new(options);
    prover.build_layers(&mut channel, evaluations.clone());
    let positions = channel.draw_query_positions().unwrap();
    let proof = prover.build_proof(&positions);
    let commitments = channel.layer_commitments().clone();
    let bytes = proof.to_bytes();
    let domain_size = trace_length * lde_blowup;
    let max_degree = trace_length - 1;

    let ok = verify_bytes(
        &bytes,
        commitments.clone(),
        &evaluations,
        max_degree,
        domain_size,
        &positions,
        &options,
    );
    assert!(ok.is_ok(), "{:?}", ok.err().unwrap());

    let mut wrong = evaluations.clone();
    wrong[positions[0]] = wrong[positions[0]].add(Felt::one());
    let bad = verify_bytes(
        &bytes,
        commitments,
        &wrong,
        max_degree,
        domain_size,
        &positions,
        &options,
    );
    assert!(matches!(bad, Err(VerifierError::FoldingInconsistency(..))));
}

#[test]
fn mismatched_folding_factor_rejected() {
    let (options, evaluations, domain_size) = small_setup();
    let (bytes, commitments, _) = prove_to_bytes(&options, &evaluations);
    let proof = FriProof::from_bytes(&bytes).unwrap();
    // the channel refuses a proof declared for another folding factor
    let r = DefaultVerifierChannel::new(proof, commitments, domain_size, 4);
    assert!(matches!(r, Err(VerifierError::MalformedProof)));
}

#[test]
fn query_positions_distinct_and_deterministic() {
    let mut coin1 = RandomCoin::new(&[]);
    let mut coin2 = RandomCoin::new(&[]);
    let p1 = coin1.draw_integers(32, 1024).unwrap();
    let p2 = coin2.draw_integers(32, 1024).unwrap();
    assert_eq!(p1, p2);
    assert_eq!(p1.len(), 32);
    for i in 0..p1.len() {
        assert!(p1[i] < 1024);
        for j in 0..i {
            assert_ne!(p1[i], p1[j]);
        }
    }
}

// TEST UTILS
// ================================================================================================

pub fn build_evaluations(trace_length: usize, lde_blowup: usize) -> Vec<Felt> {
    let mut p: Vec<Felt> = (0..trace_length as u64).map(Felt::new).collect::<Vec<_>>();
    let domain_size = trace_length * lde_blowup;
    p.resize(domain_size, Felt::zero());
    fft_eval(p)
}

/// Evaluate the polynomial with the given coefficients over the whole
/// power-of-two domain, in natural order.
fn fft_eval(mut p: Vec<Felt>) -> Vec<Felt> {
    let n = p.len();
    let mut j = 0usize;
    for i in 1..n {
        let mut bit = n >> 1;
        while j & bit != 0 {
            j ^= bit;
            bit >>= 1;
        }
        j |= bit;
        if i < j {
            p.swap(i, j);
        }
    }
    let w_n = domain_generator(n as u64);
    let mut len = 2usize;
    while len <= n {
        let wlen = w_n.exp((n / len) as u64);
        let mut start = 0usize;
        while start < n {
            let mut w = Felt::one();
            for k in 0..len / 2 {
                let u = p[start + k];
                let v = p[start + k + len / 2].mul(w);
                p[start + k] = u.add(v);
                p[start + k + len / 2] = u.sub(v);
                w = w.mul(wlen);
            }
            start += len;
        }
        len <<= 1;
    }
    p
}

/// A fast configuration: domain 2^10, folding factor 2, remainder bound 2^3.
fn small_setup() -> (FriOptions, Vec<Felt>, usize) {
    let trace_length = 1usize << 8;
    let lde_blowup = 1usize << 2;
    let options = FriOptions::new(lde_blowup, 2, 8);
    let evaluations = build_evaluations(trace_length, lde_blowup);
    (options, evaluations, trace_length * lde_blowup)
}

fn prove_to_bytes(
    options: &FriOptions,
    evaluations: &[Felt],
) -> (Vec<u8>, Vec<ByteDigest>, Vec<usize>) {
    let trace_length = evaluations.len() / options.blowup_factor();
    let mut channel = build_prover_channel(trace_length, options);
    let mut prover = FriProver::new(*options);
    prover.build_layers(&mut channel, evaluations.to_vec());
    let positions = channel.draw_query_positions().unwrap();
    let proof = prover.build_proof(&positions);
    let commitments = channel.layer_commitments().clone();
    (proof.to_bytes(), commitments, positions)
}

fn prove_then_verify(
    options: &FriOptions,
    evaluations: &[Felt],
    max_degree: usize,
) -> Result<(), VerifierError> {
    let (bytes, commitments, positions) = prove_to_bytes(options, evaluations);
    verify_bytes(
        &bytes,
        commitments,
        evaluations,
        max_degree,
        evaluations.len(),
        &positions,
        options,
    )
}

fn verify_bytes(
    bytes: &[u8],
    commitments: Vec<ByteDigest>,
    evaluations: &[Felt],
    max_degree: usize,
    domain_size: usize,
    positions: &[usize],
    options: &FriOptions,
) -> Result<(), VerifierError> {
    let proof = FriProof::from_bytes(bytes).ok_or(VerifierError::MalformedProof)?;
    let mut channel =
        DefaultVerifierChannel::new(proof, commitments, domain_size, options.folding_factor())?;
    let mut coin = RandomCoin::new(&[]);
    let verifier = FriVerifier::new(&mut channel, &mut coin, options.clone(), max_degree)?;
    let queried_evaluations = positions.iter().map(|&p| evaluations[p]).collect::<Vec<_>>();
    verifier.verify(&channel, &queried_evaluations, &positions.to_vec())
}

pub fn verify_proof(
    proof: FriProof,
    commitments: Vec<ByteDigest>,
    evaluations: &[Felt],
    max_degree: usize,
    domain_size: usize,
    positions: &[usize],
    options: &FriOptions,
) -> Result<(), VerifierError> {
    // test proof serialization / deserialization
    let proof_bytes = proof.to_bytes();
    let proof = FriProof::from_bytes(&proof_bytes).unwrap();

    // verify the proof
    let mut channel =
        DefaultVerifierChannel::new(proof, commitments, domain_size, options.folding_factor())
            .unwrap();
    let mut coin = RandomCoin::new(&[]);
    let verifier =
        FriVerifier::new(&mut channel, &mut coin, options.clone(), max_degree).unwrap();
    let queried_evaluations = positions.iter().map(|&p| evaluations[p]).collect::<Vec<_>>();
    verifier.verify(&channel, &queried_evaluations, &positions.to_vec())
}

fn fri_prove_verify(
    trace_length_e: usize,
    lde_blowup_e: usize,
    folding_factor_e: usize,
    max_remainder_size_e: usize,
) {
    let trace_length = 1usize << trace_length_e;
    let lde_blowup = 1usize << lde_blowup_e;
    let folding_factor = 1usize << folding_factor_e;
    let max_remainder_size = 1usize << max_remainder_size_e;

    let options = FriOptions::new(lde_blowup, folding_factor, max_remainder_size);
    let mut channel = build_prover_channel(trace_length, &options);
    let evaluations = build_evaluations(trace_length, lde_blowup);

    // instantiate the prover and generate the proof
    let mut prover = FriProver::new(options);
    prover.build_layers(&mut channel, evaluations.clone());
    let positions = channel.draw_query_positions().unwrap();
    let proof = prover.build_proof(&positions);

    // make sure the proof can be verified
    let commitments = channel.layer_commitments().clone();
    let max_degree = trace_length - 1;
    let domain_size = trace_length * lde_blowup;
    let result = verify_proof(
        proof,
        commitments,
        &evaluations,
        max_degree,
        domain_size,
        &positions,
        &options,
    );
    assert!(result.is_ok(), "{:?}", result.err().unwrap());
}
