use binius_cs::arith::ArithExpr;
use binius_cs::channel::{Flush, FlushDirection};
use binius_cs::constraint::{Constraint, ConstraintPredicate, ConstraintSet};
use binius_cs::constraint_system::{ConstraintSystem, Proof};
use binius_cs::error::Error;
use binius_cs::oracle::{MultilinearOracleSet, ProjectionVariant, ShiftVariant};
use binius_cs::transparent::{Constant, TransparentPoly};

fn sample_flush() -> Flush {
    Flush {
        oracles: vec![3, 1, 4],
        channel_id: 2,
        direction: FlushDirection::Pull,
        count: 16,
        multiplicity: 7,
    }
}

#[test]
fn flush_round_trip() {
    let f = sample_flush();
    let mut bytes: Vec<u8> = Vec::new();
    f.write(&mut bytes);
    let mut pos = 0usize;
    let g = Flush::read(&bytes, &mut pos).unwrap();
    assert_eq!(pos, bytes.len());
    assert_eq!(g.oracles, f.oracles);
    assert_eq!(g.channel_id, f.channel_id);
    assert!(matches!(g.direction, FlushDirection::Pull));
    assert_eq!(g.count, f.count);
    assert_eq!(g.multiplicity, f.multiplicity);
}

#[test]
fn flush_read_rejects_bad_direction_tag() {
    let f = sample_flush();
    let mut bytes: Vec<u8> = Vec::new();
    f.write(&mut bytes);
    // The direction tag sits after the count prefix, the handles and
    // the channel id.
    let tag_offset = 4 + 4 * 3 + 4;
    bytes[tag_offset] = 9;
    let mut pos = 0usize;
    assert!(matches!(
        Flush::read(&bytes, &mut pos),
        Err(Error::InvalidEncoding)
    ));
}

#[test]
fn proof_round_trip() {
    let p = Proof {
        transcript: vec![1, 2, 3, 4, 5],
        advice: vec![9, 8],
    };
    let mut bytes: Vec<u8> = Vec::new();
    p.write(&mut bytes);
    assert_eq!(bytes.len(), 4 + 5 + 4 + 2);
    let mut pos = 0usize;
    let q = Proof::read(&bytes, &mut pos).unwrap();
    assert_eq!(pos, bytes.len());
    assert_eq!(q, p);
    assert_eq!(q.get_proof_size(), 5);
}

#[test]
fn proof_read_rejects_truncation() {
    let p = Proof {
        transcript: vec![1, 2, 3],
        advice: vec![],
    };
    let mut bytes: Vec<u8> = Vec::new();
    p.write(&mut bytes);
    bytes.pop();
    let mut pos = 0usize;
    assert_eq!(Proof::read(&bytes, &mut pos), Err(Error::InvalidEncoding));
}

fn sample_system() -> ConstraintSystem {
    let mut oracles = MultilinearOracleSet::new();
    let a = oracles.add_committed(3, 0);
    let b = oracles.add_committed(3, 0);
    let _t = oracles
        .add_transparent(TransparentPoly::Constant(Constant::new(3, 5, 0)))
        .unwrap();
    let _sd = oracles
        .add_transparent(TransparentPoly::StepDown { n_vars: 3, index: 6 })
        .unwrap();
    let _eq = oracles
        .add_transparent(TransparentPoly::EqInd { n_vars: 2, point: vec![7, 9] })
        .unwrap();
    let _sh = oracles.add_shifted(a, 1, 3, ShiftVariant::LogicalLeft).unwrap();
    let _pk = oracles.add_packed(a, 1).unwrap();
    let _pr = oracles
        .add_projected(a, vec![4], ProjectionVariant::LastVars)
        .unwrap();
    let _lc = oracles
        .add_linear_combination_with_offset(3, 11, vec![(a, 1), (b, 13)])
        .unwrap();
    let _zp = oracles.add_zero_padded(a, 5).unwrap();
    let _rp = oracles.add_repeating(a, 1).unwrap();
    let table_constraints = vec![ConstraintSet {
        n_vars: 3,
        oracle_ids: vec![a, b],
        constraints: vec![Constraint {
            name: b"gate".to_vec(),
            composition: ArithExpr::Mul(
                Box::new(ArithExpr::Add(
                    Box::new(ArithExpr::Var(0)),
                    Box::new(ArithExpr::Const(1)),
                )),
                Box::new(ArithExpr::Var(1).pow(2)),
            ),
            predicate: ConstraintPredicate::Sum(99),
        }],
    }];
    ConstraintSystem {
        oracles,
        table_constraints,
        non_zero_oracle_ids: vec![b],
        flushes: vec![sample_flush()],
        max_channel_id: 2,
    }
}

#[test]
fn constraint_system_round_trip() {
    let cs = sample_system();
    let mut bytes: Vec<u8> = Vec::new();
    cs.write(&mut bytes);
    let mut pos = 0usize;
    let de = ConstraintSystem::read(&bytes, &mut pos).unwrap();
    assert_eq!(pos, bytes.len());
    assert_eq!(de.oracles.size(), cs.oracles.size());
    assert_eq!(de.oracles.n_vars(10), cs.oracles.n_vars(10));
    assert_eq!(de.non_zero_oracle_ids, cs.non_zero_oracle_ids);
    assert_eq!(de.max_channel_id, cs.max_channel_id);
    assert_eq!(de.flushes.len(), 1);
    assert_eq!(de.flushes[0].oracles, cs.flushes[0].oracles);
    assert_eq!(de.table_constraints.len(), 1);
    assert_eq!(de.table_constraints[0].n_vars, 3);
    assert_eq!(de.table_constraints[0].oracle_ids, vec![0, 1]);
    assert_eq!(
        de.table_constraints[0].constraints[0].name,
        b"gate".to_vec()
    );
    assert_eq!(
        de.table_constraints[0].constraints[0].composition,
        cs.table_constraints[0].constraints[0].composition
    );
    assert_eq!(
        de.table_constraints[0].constraints[0].predicate,
        ConstraintPredicate::Sum(99)
    );
    // A second encoding of the decoded system is byte-identical.
    let mut bytes2: Vec<u8> = Vec::new();
    de.write(&mut bytes2);
    assert_eq!(bytes, bytes2);
}

#[test]
fn constraint_system_read_rejects_invalid_graph() {
    let cs = sample_system();
    let mut bytes: Vec<u8> = Vec::new();
    cs.write(&mut bytes);
    // Corrupt the committed tag of the first descriptor into an unknown
    // kind.
    bytes[4] = 200;
    let mut pos = 0usize;
    assert!(matches!(
        ConstraintSystem::read(&bytes, &mut pos),
        Err(Error::InvalidEncoding)
    ));
}

#[test]
fn encodability_check_accepts_sample_system() {
    let cs = sample_system();
    assert!(cs.is_encodable());
    assert!(cs.oracles.check_wf());
}

#[test]
fn encodability_check_rejects_wide_channel_id() {
    let mut cs = sample_system();
    cs.flushes[0].channel_id = (u32::MAX as usize) + 1;
    assert!(!cs.is_encodable());
}

#[test]
fn encodability_check_rejects_wide_variable_index() {
    let mut cs = sample_system();
    cs.table_constraints[0].constraints[0].composition =
        ArithExpr::Var((u32::MAX as usize) + 1);
    assert!(!cs.is_encodable());
}
