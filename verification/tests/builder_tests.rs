use binius_cs::arith::ArithExpr;
use binius_cs::constraint::{positions, ConstraintPredicate, ConstraintSetBuilder};
use binius_cs::error::Error;
use binius_cs::oracle::{MultilinearOracleSet, ProjectionVariant};

#[test]
fn positions_finds_first_matches() {
    let subset = vec![2usize, 1];
    let superset = vec![1usize, 2, 3, 2];
    assert_eq!(positions(&subset, &superset), Some(vec![1, 0]));
    let missing = vec![5usize];
    assert_eq!(positions(&missing, &superset), None);
}

#[test]
fn build_one_sorts_dedups_and_remaps() {
    let mut oracles = MultilinearOracleSet::new();
    let a = oracles.add_committed(2, 0);
    let b = oracles.add_committed(2, 0);
    let mut builder = ConstraintSetBuilder::new();
    // The constraint reads its columns in the order (b, a).
    builder.add_zerocheck(
        b"swap".to_vec(),
        vec![b, a],
        ArithExpr::Add(Box::new(ArithExpr::Var(0)), Box::new(ArithExpr::Var(1))),
    );
    let set = builder.build_one(&oracles).unwrap();
    assert_eq!(set.oracle_ids, vec![a, b]);
    assert_eq!(set.n_vars, 2);
    assert_eq!(set.constraints.len(), 1);
    // Local index zero pointed at `b`, which sits at position one.
    assert_eq!(
        set.constraints[0].composition,
        ArithExpr::Add(Box::new(ArithExpr::Var(1)), Box::new(ArithExpr::Var(0)))
    );
    assert_eq!(set.constraints[0].predicate, ConstraintPredicate::Zero);
}

#[test]
fn build_one_rejects_empty_and_mismatched() {
    let oracles = MultilinearOracleSet::new();
    let builder = ConstraintSetBuilder::new();
    assert!(matches!(
        builder.build_one(&oracles),
        Err(Error::EmptyConstraintSet)
    ));

    let mut oracles = MultilinearOracleSet::new();
    let a = oracles.add_committed(2, 0);
    let b = oracles.add_committed(3, 0);
    let mut builder = ConstraintSetBuilder::new();
    builder.add_zerocheck(b"m".to_vec(), vec![a, b], ArithExpr::Var(0));
    assert!(matches!(
        builder.build_one(&oracles),
        Err(Error::ConstraintSetNvarsMismatch { .. })
    ));
}

#[test]
fn build_splits_disjoint_groups() {
    let mut oracles = MultilinearOracleSet::new();
    let a = oracles.add_committed(2, 0);
    let b = oracles.add_committed(2, 0);
    let c = oracles.add_committed(3, 0);
    let d = oracles.add_committed(3, 0);
    let mut builder = ConstraintSetBuilder::new();
    builder.add_zerocheck(
        b"low".to_vec(),
        vec![a, b],
        ArithExpr::Add(Box::new(ArithExpr::Var(0)), Box::new(ArithExpr::Var(1))),
    );
    builder.add_zerocheck(
        b"high".to_vec(),
        vec![c, d],
        ArithExpr::Mul(Box::new(ArithExpr::Var(0)), Box::new(ArithExpr::Var(1))),
    );
    let sets = builder.build(&oracles).unwrap();
    assert_eq!(sets.len(), 2);
    assert_eq!(sets[0].oracle_ids, vec![a, b]);
    assert_eq!(sets[0].n_vars, 2);
    assert_eq!(sets[1].oracle_ids, vec![c, d]);
    assert_eq!(sets[1].n_vars, 3);
}

#[test]
fn build_rejects_mixed_arity_constraint() {
    let mut oracles = MultilinearOracleSet::new();
    let a = oracles.add_committed(2, 0);
    let c = oracles.add_committed(3, 0);
    let mut builder = ConstraintSetBuilder::new();
    builder.add_zerocheck(
        b"bad".to_vec(),
        vec![a, c],
        ArithExpr::Add(Box::new(ArithExpr::Var(0)), Box::new(ArithExpr::Var(1))),
    );
    assert!(matches!(
        builder.build(&oracles),
        Err(Error::ConstraintSetNvarsMismatch { .. })
    ));
}

#[test]
fn build_joins_constraints_through_structural_edges() {
    // Two constraints on different committed columns, linked because a
    // linear combination mixes both columns.
    let mut oracles = MultilinearOracleSet::new();
    let a = oracles.add_committed(2, 0);
    let b = oracles.add_committed(2, 0);
    let _lc = oracles
        .add_linear_combination(2, vec![(a, 1), (b, 1)])
        .unwrap();
    let mut builder = ConstraintSetBuilder::new();
    builder.add_zerocheck(b"first".to_vec(), vec![a], ArithExpr::Var(0));
    builder.add_zerocheck(b"second".to_vec(), vec![b], ArithExpr::Var(0));
    let sets = builder.build(&oracles).unwrap();
    assert_eq!(sets.len(), 1);
    assert_eq!(sets[0].oracle_ids, vec![a, b]);
    assert_eq!(sets[0].constraints.len(), 2);
}

#[test]
fn add_projection_with_all_vars() {
    let mut oracles = MultilinearOracleSet::new();
    let data = oracles.add_committed(5, 0);
    let projected = oracles
        .add_projected(data, vec![1, 1, 1, 1, 1], ProjectionVariant::FirstVars)
        .unwrap();
    let _ = oracles.oracle(projected);
}

#[test]
fn graph_constructors_validate() {
    let mut oracles = MultilinearOracleSet::new();
    let a = oracles.add_committed(3, 0);
    assert!(oracles.add_shifted(a, 1, 3, binius_cs::oracle::ShiftVariant::LogicalLeft).is_ok());
    // A zero offset, or one at or past the block size, is rejected.
    assert!(matches!(
        oracles.add_shifted(a, 0, 3, binius_cs::oracle::ShiftVariant::LogicalLeft),
        Err(Error::InvalidShiftOffset { .. })
    ));
    assert!(matches!(
        oracles.add_shifted(a, 8, 3, binius_cs::oracle::ShiftVariant::LogicalLeft),
        Err(Error::InvalidShiftOffset { .. })
    ));
    assert!(matches!(
        oracles.add_shifted(a, 1, 4, binius_cs::oracle::ShiftVariant::CircularLeft),
        Err(Error::InvalidBlockSize { .. })
    ));
    assert!(matches!(
        oracles.add_packed(a, 4),
        Err(Error::NotEnoughVarsForPacking { .. })
    ));
    assert!(matches!(
        oracles.add_projected(a, vec![0, 0, 0, 0], ProjectionVariant::LastVars),
        Err(Error::InvalidProjection { .. })
    ));
    assert!(matches!(
        oracles.add_zero_padded(a, 2),
        Err(Error::IncorrectNumberOfVariables { .. })
    ));
    assert_eq!(oracles.add_zero_padded(a, 5).unwrap(), 2);
    assert_eq!(oracles.n_vars(2), 5);
    assert_eq!(oracles.add_repeating(a, 2).unwrap(), 3);
    assert_eq!(oracles.n_vars(3), 5);
    assert_eq!(oracles.add_packed(a, 2).unwrap(), 4);
    assert_eq!(oracles.n_vars(4), 1);
    assert_eq!(oracles.tower_level(4), 2);
}
