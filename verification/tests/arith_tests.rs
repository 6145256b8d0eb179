use binius_cs::arith::ArithExpr;
use binius_cs::error::Error;

fn bx(e: ArithExpr<3>) -> Box<ArithExpr<3>> {
    Box::new(e)
}

#[test]
fn test_degree_with_pow() {
    let expr = ArithExpr::<3>::Const(6).pow(7);
    assert_eq!(expr.degree(), 0);

    let expr: ArithExpr<3> = ArithExpr::Var(0).pow(7);
    assert_eq!(expr.degree(), 7);

    let expr: ArithExpr<3> = ArithExpr::Mul(bx(ArithExpr::Var(0)), bx(ArithExpr::Var(1))).pow(7);
    assert_eq!(expr.degree(), 14);
}

#[test]
fn test_remap_vars_with_too_few_vars() {
    let expr: ArithExpr<3> = ArithExpr::Mul(
        bx(ArithExpr::Add(bx(ArithExpr::Var(0)), bx(ArithExpr::Const(1)))),
        bx(ArithExpr::Var(1)),
    )
    .pow(3);
    let indices = vec![5usize];
    assert!(matches!(
        expr.remap_vars(&indices),
        Err(Error::IncorrectArgumentLength { .. })
    ));
}

#[test]
fn test_remap_vars_works() {
    let expr: ArithExpr<3> = ArithExpr::Mul(
        bx(ArithExpr::Add(bx(ArithExpr::Var(0)), bx(ArithExpr::Const(1)))),
        bx(ArithExpr::Var(1)),
    )
    .pow(3);
    let indices = vec![5usize, 3usize];
    let new_expr = expr.remap_vars(&indices);

    let expected: ArithExpr<3> = ArithExpr::Mul(
        bx(ArithExpr::Add(bx(ArithExpr::Var(5)), bx(ArithExpr::Const(1)))),
        bx(ArithExpr::Var(1)),
    );
    // The remapping rewrites both variables.
    let expected = match expected {
        ArithExpr::Mul(l, _) => ArithExpr::Mul(l, Box::new(ArithExpr::Var(3))).pow(3),
        _ => unreachable!(),
    };
    assert_eq!(new_expr.unwrap(), expected);
}

#[test]
fn test_expression_upcast() {
    let expr: ArithExpr<3> = ArithExpr::Mul(
        bx(ArithExpr::Add(bx(ArithExpr::Var(0)), bx(ArithExpr::Const(1)))),
        bx(ArithExpr::Const(222)),
    )
    .pow(3);

    let expected: ArithExpr<7> = ArithExpr::Mul(
        Box::new(ArithExpr::Add(
            Box::new(ArithExpr::Var(0)),
            Box::new(ArithExpr::Const(1)),
        )),
        Box::new(ArithExpr::Const(222)),
    )
    .pow(3);
    assert_eq!(expr.convert_field::<7>(), expected);
}

#[test]
fn test_expression_downcast() {
    let expr: ArithExpr<7> = ArithExpr::Mul(
        Box::new(ArithExpr::Add(
            Box::new(ArithExpr::Var(0)),
            Box::new(ArithExpr::Const(1)),
        )),
        Box::new(ArithExpr::Const(222)),
    )
    .pow(3);

    assert!(expr.try_convert_field::<0>().is_err());

    let expected: ArithExpr<3> = ArithExpr::Mul(
        bx(ArithExpr::Add(bx(ArithExpr::Var(0)), bx(ArithExpr::Const(1)))),
        bx(ArithExpr::Const(222)),
    )
    .pow(3);
    assert_eq!(expr.try_convert_field::<3>().unwrap(), expected);
}

#[test]
fn arith_duplicate_and_n_vars() {
    let expr: ArithExpr<7> = ArithExpr::Add(
        Box::new(ArithExpr::Var(4)),
        Box::new(ArithExpr::Const(9)),
    );
    assert_eq!(expr.n_vars(), 5);
    assert_eq!(expr.duplicate(), expr);
}
