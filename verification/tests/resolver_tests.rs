use binius_cs::arith::ArithExpr;
use binius_cs::constraint::{Constraint, ConstraintPredicate, ConstraintSet};
use binius_cs::error::{Error, VerificationError};
use binius_cs::pipeline::constraint_set_zerocheck_claim;
use binius_cs::oracle::{MultilinearOracleSet, ProjectionVariant};
use binius_cs::pipeline::{resolve_eval_claims, EvalcheckClaim};
use binius_cs::transcript::StreamReader;
use binius_cs::transparent::{Constant, TransparentPoly};

fn no_advice() -> StreamReader {
    StreamReader::new(vec![])
}

#[test]
fn committed_claim_resolves_to_its_batch() {
    let mut oracles = MultilinearOracleSet::new();
    let a = oracles.add_committed(1, 0);
    let b = oracles.add_committed(1, 0);
    let claims = vec![
        EvalcheckClaim { oracle_id: a, eval_point: vec![5], eval: 9 },
        EvalcheckClaim { oracle_id: b, eval_point: vec![5], eval: 11 },
    ];
    let mut advice = no_advice();
    let out = resolve_eval_claims(&oracles, claims, &mut advice).unwrap();
    assert_eq!(out.len(), 2);
    assert_eq!(out[0].0, 0);
    assert_eq!(out[0].1.oracle_id, a);
    assert_eq!(out[1].0, 1);
    assert_eq!(out[1].1.oracle_id, b);
}

#[test]
fn transparent_claims_are_checked_by_evaluation() {
    let mut oracles = MultilinearOracleSet::new();
    let c = oracles
        .add_transparent(TransparentPoly::Constant(Constant::new(1, 42, 7)))
        .unwrap();
    let good = vec![EvalcheckClaim { oracle_id: c, eval_point: vec![5], eval: 42 }];
    assert!(resolve_eval_claims(&oracles, good, &mut no_advice()).is_ok());
    let bad = vec![EvalcheckClaim { oracle_id: c, eval_point: vec![5], eval: 41 }];
    assert!(matches!(
        resolve_eval_claims(&oracles, bad, &mut no_advice()),
        Err(Error::Verification(VerificationError::IncorrectTransparentEvaluation))
    ));
}

#[test]
fn eq_ind_mismatch_is_named() {
    let mut oracles = MultilinearOracleSet::new();
    let e = oracles
        .add_transparent(TransparentPoly::EqInd { n_vars: 1, point: vec![1] })
        .unwrap();
    let bad = vec![EvalcheckClaim { oracle_id: e, eval_point: vec![1], eval: 0 }];
    assert!(matches!(
        resolve_eval_claims(&oracles, bad, &mut no_advice()),
        Err(Error::Verification(VerificationError::IncorrectEqIndEvaluation))
    ));
}

#[test]
fn repeating_claim_drops_to_the_inner_point() {
    let mut oracles = MultilinearOracleSet::new();
    let a = oracles.add_committed(1, 0);
    let rep = oracles.add_repeating(a, 1).unwrap();
    let claims = vec![EvalcheckClaim { oracle_id: rep, eval_point: vec![7, 8], eval: 3 }];
    let out = resolve_eval_claims(&oracles, claims, &mut no_advice()).unwrap();
    assert_eq!(out.len(), 1);
    assert_eq!(out[0].1.oracle_id, a);
    assert_eq!(out[0].1.eval_point, vec![7]);
    assert_eq!(out[0].1.eval, 3);
}

#[test]
fn projected_claim_reinstates_fixed_coordinates() {
    let mut oracles = MultilinearOracleSet::new();
    let a = oracles.add_committed(2, 0);
    let pf = oracles
        .add_projected(a, vec![9], ProjectionVariant::FirstVars)
        .unwrap();
    let pl = oracles
        .add_projected(a, vec![9], ProjectionVariant::LastVars)
        .unwrap();
    let claims = vec![
        EvalcheckClaim { oracle_id: pf, eval_point: vec![5], eval: 1 },
        EvalcheckClaim { oracle_id: pl, eval_point: vec![5], eval: 2 },
    ];
    let out = resolve_eval_claims(&oracles, claims, &mut no_advice()).unwrap();
    assert_eq!(out.len(), 2);
    // The first-vars projection prepends the fixed values; the
    // last-vars projection appends them.
    let points: Vec<Vec<u128>> = out.iter().map(|p| p.1.eval_point.clone()).collect();
    assert!(points.contains(&vec![9, 5]));
    assert!(points.contains(&vec![5, 9]));
}

#[test]
fn linear_combination_claim_checks_the_relation() {
    let mut oracles = MultilinearOracleSet::new();
    let a = oracles.add_committed(1, 0);
    let b = oracles.add_committed(1, 0);
    let lc = oracles
        .add_linear_combination_with_offset(1, 7, vec![(a, 1), (b, 2)])
        .unwrap();
    // Advice supplies the two inner evaluations 5 and 3; the mixed
    // value is 7 + 1*5 + 2*3 = 7 ^ 5 ^ 6 = 4.
    let mut advice_bytes: Vec<u8> = Vec::new();
    advice_bytes.extend_from_slice(&5u128.to_le_bytes());
    advice_bytes.extend_from_slice(&3u128.to_le_bytes());
    let claims = vec![EvalcheckClaim { oracle_id: lc, eval_point: vec![8], eval: 4 }];
    let mut advice = StreamReader::new(advice_bytes.clone());
    let out = resolve_eval_claims(&oracles, claims, &mut advice).unwrap();
    assert_eq!(out.len(), 2);
    assert_eq!(out[0].1.eval_point, vec![8]);

    // A claim off by one is rejected.
    let claims = vec![EvalcheckClaim { oracle_id: lc, eval_point: vec![8], eval: 5 }];
    let mut advice = StreamReader::new(advice_bytes);
    assert!(matches!(
        resolve_eval_claims(&oracles, claims, &mut advice),
        Err(Error::Verification(VerificationError::IncorrectTransparentEvaluation))
    ));
}

#[test]
fn zero_padded_claim_scales_by_the_pad_indicator() {
    let mut oracles = MultilinearOracleSet::new();
    let a = oracles.add_committed(1, 0);
    let zp = oracles.add_zero_padded(a, 2).unwrap();
    // Advice supplies the inner evaluation 6; at a point whose pad
    // coordinate is zero the padded value equals it.
    let mut advice_bytes: Vec<u8> = Vec::new();
    advice_bytes.extend_from_slice(&6u128.to_le_bytes());
    let claims = vec![EvalcheckClaim { oracle_id: zp, eval_point: vec![4, 0], eval: 6 }];
    let mut advice = StreamReader::new(advice_bytes);
    let out = resolve_eval_claims(&oracles, claims, &mut advice).unwrap();
    assert_eq!(out.len(), 1);
    assert_eq!(out[0].1.oracle_id, a);
    assert_eq!(out[0].1.eval_point, vec![4]);
    assert_eq!(out[0].1.eval, 6);
}

#[test]
fn shifted_claim_reduces_through_advice() {
    let mut oracles = MultilinearOracleSet::new();
    let a = oracles.add_committed(2, 0);
    let sh = oracles
        .add_shifted(a, 1, 2, binius_cs::oracle::ShiftVariant::LogicalLeft)
        .unwrap();
    // The collaborator supplies the reduced inner point (7, 8) and the
    // inner evaluation 9 through the advice stream.
    let mut advice_bytes: Vec<u8> = Vec::new();
    advice_bytes.extend_from_slice(&7u128.to_le_bytes());
    advice_bytes.extend_from_slice(&8u128.to_le_bytes());
    advice_bytes.extend_from_slice(&9u128.to_le_bytes());
    let claims = vec![EvalcheckClaim { oracle_id: sh, eval_point: vec![1, 2], eval: 3 }];
    let mut advice = StreamReader::new(advice_bytes);
    let out = resolve_eval_claims(&oracles, claims, &mut advice).unwrap();
    assert_eq!(out.len(), 1);
    assert_eq!(out[0].1.oracle_id, a);
    assert_eq!(out[0].1.eval_point, vec![7, 8]);
    assert_eq!(out[0].1.eval, 9);
    // Without the advice material the reduction cannot proceed.
    let claims = vec![EvalcheckClaim { oracle_id: sh, eval_point: vec![1, 2], eval: 3 }];
    assert!(matches!(
        resolve_eval_claims(&oracles, claims, &mut no_advice()),
        Err(Error::InvalidEncoding)
    ));
}

#[test]
fn packed_claim_reduces_through_advice() {
    let mut oracles = MultilinearOracleSet::new();
    let a = oracles.add_committed(3, 0);
    let pk = oracles.add_packed(a, 1).unwrap();
    let mut advice_bytes: Vec<u8> = Vec::new();
    advice_bytes.extend_from_slice(&4u128.to_le_bytes());
    advice_bytes.extend_from_slice(&5u128.to_le_bytes());
    advice_bytes.extend_from_slice(&6u128.to_le_bytes());
    advice_bytes.extend_from_slice(&2u128.to_le_bytes());
    let claims = vec![EvalcheckClaim { oracle_id: pk, eval_point: vec![1, 2], eval: 3 }];
    let mut advice = StreamReader::new(advice_bytes);
    let out = resolve_eval_claims(&oracles, claims, &mut advice).unwrap();
    assert_eq!(out.len(), 1);
    assert_eq!(out[0].1.oracle_id, a);
    assert_eq!(out[0].1.eval_point, vec![4, 5, 6]);
    assert_eq!(out[0].1.eval, 2);
}

#[test]
fn graph_limits_are_reported() {
    let mut oracles = MultilinearOracleSet::new();
    // A transparent polynomial beyond the field's tower height.
    assert_eq!(
        oracles.add_transparent(TransparentPoly::Constant(Constant::new(1, 0, 8))),
        Err(Error::TowerLevelTooHigh { tower_level: 8 })
    );
    // A repetition that would overflow the machine word's arity.
    let wide = oracles.add_committed(usize::MAX, 0);
    assert_eq!(
        oracles.add_repeating(wide, 1),
        Err(Error::TooManyVariables { n_vars: usize::MAX })
    );
}

#[test]
fn oversized_composition_degree_is_reported() {
    let huge: ArithExpr<7> = ArithExpr::Var(0).pow(u64::MAX).pow(u64::MAX);
    let set = ConstraintSet {
        n_vars: 1,
        oracle_ids: vec![0],
        constraints: vec![Constraint {
            name: b"wide".to_vec(),
            composition: huge,
            predicate: ConstraintPredicate::Zero,
        }],
    };
    assert_eq!(
        constraint_set_zerocheck_claim(&set),
        Err(Error::DegreeTooLarge)
    );
}
