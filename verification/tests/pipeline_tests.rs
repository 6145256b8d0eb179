use binius_cs::arith::ArithExpr;
use binius_cs::channel::{Boundary, Flush, FlushDirection};
use binius_cs::constraint::{Constraint, ConstraintPredicate, ConstraintSet};
use binius_cs::constraint_system::{ConstraintSystem, Proof};
use binius_cs::error::{Error, VerificationError};
use binius_cs::oracle::MultilinearOracleSet;
use binius_cs::pipeline::{
    check_batch_coverage, check_non_zero_products, max_n_vars_and_skip_rounds,
    verify_channels_balance, verify_with_pcs, FlushSumcheckComposition, PolyCommitScheme,
    ZerocheckClaimInfo,
};
use binius_cs::transcript::StreamReader;

#[test]
fn non_zero_products_reject_zero() {
    assert!(check_non_zero_products(&vec![1, 2, 3]).is_ok());
    assert_eq!(check_non_zero_products(&vec![1, 0, 3]), Err(Error::Zeros));
}

#[test]
fn batch_coverage_requires_exactly_one_claim_each() {
    assert!(check_batch_coverage(&vec![0, 1, 2], 3).is_ok());
    assert_eq!(
        check_batch_coverage(&vec![0, 2], 3),
        Err(Error::UnconstrainedBatch { batch_id: 1 })
    );
    assert_eq!(
        check_batch_coverage(&vec![0, 1], 3),
        Err(Error::UnconstrainedBatch { batch_id: 2 })
    );
    assert_eq!(
        check_batch_coverage(&vec![0, 0, 1], 3),
        Err(Error::UnconstrainedBatch { batch_id: 1 })
    );
}

#[test]
fn flush_composite_evaluates() {
    let comp = FlushSumcheckComposition;
    assert_eq!(comp.n_vars(), 3);
    assert_eq!(comp.degree(), 3);
    // With the mask up, the composite passes the value through the
    // indicator; with it down, it passes one through.
    assert_eq!(comp.evaluate(&[42, 1, 1]).unwrap(), 42);
    assert_eq!(comp.evaluate(&[42, 0, 1]).unwrap(), 1);
    assert_eq!(comp.evaluate(&[42, 1, 0]).unwrap(), 0);
    assert!(comp.evaluate(&[1, 2]).is_err());
}

#[test]
fn skip_rounds_follow_domain_capacity() {
    // One claim of arity ten and degree two: eight domain bits minus
    // one degree bit leave seven rounds to skip.
    let claims = vec![ZerocheckClaimInfo { n_vars: 10, max_individual_degree: 2 }];
    assert_eq!(max_n_vars_and_skip_rounds(&claims, 8), (10, 7));
    // A second, smaller claim with a wide degree pins the minimum.
    let claims = vec![
        ZerocheckClaimInfo { n_vars: 10, max_individual_degree: 2 },
        ZerocheckClaimInfo { n_vars: 10, max_individual_degree: 256 },
    ];
    assert_eq!(max_n_vars_and_skip_rounds(&claims, 8), (10, 0));
    // The skip never exceeds the arity itself.
    let claims = vec![ZerocheckClaimInfo { n_vars: 2, max_individual_degree: 1 }];
    assert_eq!(max_n_vars_and_skip_rounds(&claims, 8), (2, 2));
    assert_eq!(max_n_vars_and_skip_rounds(&vec![], 8), (0, 0));
}

#[test]
fn randomized_balance_matches_exact_equality() {
    // A boundary pushing and pulling the same tuple balances under any
    // challenge; tampering one value unbalances it for the sampled one.
    let boundaries = vec![
        Boundary {
            values: vec![1, 2],
            channel_id: 0,
            direction: FlushDirection::Push,
            multiplicity: 1,
        },
        Boundary {
            values: vec![1, 2],
            channel_id: 0,
            direction: FlushDirection::Pull,
            multiplicity: 1,
        },
    ];
    let perm = vec![7u128];
    assert!(verify_channels_balance(&vec![], &vec![], &boundaries, 5, &perm).is_ok());

    let mut tampered = boundaries.clone();
    tampered[1].values = vec![1, 3];
    assert_eq!(
        verify_channels_balance(&vec![], &vec![], &tampered, 5, &perm),
        Err(Error::Verification(VerificationError::ChannelUnbalanced {
            id: 0
        }))
    );
}

#[test]
fn flush_product_count_must_match() {
    let flushes = vec![Flush {
        oracles: vec![0],
        channel_id: 0,
        direction: FlushDirection::Push,
        count: 1,
        multiplicity: 1,
    }];
    assert_eq!(
        verify_channels_balance(&flushes, &vec![], &vec![], 5, &vec![7]),
        Err(Error::Verification(
            VerificationError::IncorrectNumberOfFlushProducts
        ))
    );
}

/// A transparent commitment scheme for exercising the pipeline: the
/// commitment is a fixed tag checked on verification.
struct TagPcs {
    tag: Vec<u8>,
}

impl PolyCommitScheme for TagPcs {
    fn n_vars(&self) -> usize {
        1
    }

    fn verify_evaluation(
        &self,
        _advice: &mut StreamReader,
        _transcript: &mut StreamReader,
        commitment: &Vec<u8>,
        _query: &Vec<u128>,
        _values: &Vec<u128>,
    ) -> Result<(), Error> {
        if commitment == &self.tag {
            Ok(())
        } else {
            Err(Error::SubProtocol)
        }
    }

    fn proof_size(&self, _n_polys: usize) -> usize {
        0
    }
}

fn minimal_system(n_committed: usize) -> ConstraintSystem {
    let mut oracles = MultilinearOracleSet::new();
    let mut first = 0;
    for i in 0..n_committed {
        let id = oracles.add_committed(1, 0);
        if i == 0 {
            first = id;
        }
    }
    let table_constraints = vec![ConstraintSet {
        n_vars: 1,
        oracle_ids: vec![first],
        constraints: vec![Constraint {
            name: b"zero".to_vec(),
            composition: ArithExpr::Var(0),
            predicate: ConstraintPredicate::Zero,
        }],
    }];
    ConstraintSystem {
        oracles,
        table_constraints,
        non_zero_oracle_ids: vec![],
        flushes: vec![],
        max_channel_id: 0,
    }
}

fn minimal_proof() -> Proof {
    // The verifier reads one four-byte commitment, one sixteen-byte
    // skip-round coordinate for the zerocheck, and one sixteen-byte
    // evaluation for the single zero constraint's oracle.
    let mut transcript = vec![1u8, 2, 3, 4];
    transcript.extend_from_slice(&[0u8; 16]);
    transcript.extend_from_slice(&[0u8; 16]);
    Proof { transcript, advice: vec![] }
}

fn run_verify(cs: &ConstraintSystem, proof: Proof, pcss: &Vec<TagPcs>) -> Result<(), Error> {
    let mut transcript = StreamReader::new(proof.transcript);
    let mut advice = StreamReader::new(proof.advice);
    verify_with_pcs(cs, &vec![], &mut transcript, &mut advice, pcss, 4)
}

#[test]
fn minimal_verification_accepts() {
    let cs = minimal_system(1);
    let pcss = vec![TagPcs { tag: vec![1, 2, 3, 4] }];
    let r = run_verify(&cs, minimal_proof(), &pcss);
    assert!(r.is_ok());
}

#[test]
fn tampered_transcript_is_rejected() {
    let cs = minimal_system(1);
    let pcss = vec![TagPcs { tag: vec![1, 2, 3, 4] }];
    let mut proof = minimal_proof();
    proof.transcript[0] ^= 0xff;
    let r = run_verify(&cs, proof, &pcss);
    assert!(r.is_err());
}

#[test]
fn trailing_transcript_bytes_are_rejected() {
    let cs = minimal_system(1);
    let pcss = vec![TagPcs { tag: vec![1, 2, 3, 4] }];
    let mut proof = minimal_proof();
    proof.transcript.push(0);
    let r = run_verify(&cs, proof, &pcss);
    assert_eq!(
        r,
        Err(Error::Verification(
            VerificationError::UnconsumedTranscriptBytes
        ))
    );
}

#[test]
fn trailing_advice_bytes_are_rejected() {
    let cs = minimal_system(1);
    let pcss = vec![TagPcs { tag: vec![1, 2, 3, 4] }];
    let mut proof = minimal_proof();
    proof.advice.push(0);
    let r = run_verify(&cs, proof, &pcss);
    assert_eq!(
        r,
        Err(Error::Verification(
            VerificationError::UnconsumedAdviceBytes
        ))
    );
}

#[test]
fn uncovered_batch_is_rejected() {
    // A second committed batch with no evaluation claim reaching it:
    // an under-constrained system.
    let cs = minimal_system(2);
    let pcss = vec![
        TagPcs { tag: vec![1, 2, 3, 4] },
        TagPcs { tag: vec![5, 6, 7, 8] },
    ];
    let mut transcript = vec![1u8, 2, 3, 4];
    transcript.extend_from_slice(&[5, 6, 7, 8]);
    transcript.extend_from_slice(&[0u8; 16]);
    transcript.extend_from_slice(&[0u8; 16]);
    let proof = Proof { transcript, advice: vec![] };
    let r = run_verify(&cs, proof, &pcss);
    assert_eq!(r, Err(Error::UnconstrainedBatch { batch_id: 1 }));
}

#[test]
fn challenger_is_deterministic() {
    let mut a = binius_cs::transcript::Challenger::new();
    let mut b = binius_cs::transcript::Challenger::new();
    a.observe(&vec![1, 2, 3]);
    b.observe(&vec![1, 2, 3]);
    assert_eq!(a.sample(), b.sample());
    let mut c = binius_cs::transcript::Challenger::new();
    c.observe(&vec![1, 2, 4]);
    assert_ne!(a.sample(), c.sample());
}

#[test]
fn stream_reader_finalize_rejects_trailing() {
    let mut r = StreamReader::new(vec![1, 2, 3, 4]);
    let got = r.read_bytes(3).unwrap();
    assert_eq!(got, vec![1, 2, 3]);
    assert!(r
        .finalize(VerificationError::UnconsumedTranscriptBytes)
        .is_err());
    let _ = r.read_bytes(1).unwrap();
    assert!(r
        .finalize(VerificationError::UnconsumedTranscriptBytes)
        .is_ok());
}
