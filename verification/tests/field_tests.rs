use binius_cs::field::{gf_add, gf_mul, gf_pow, GF_ONE, GF_ZERO};
use binius_cs::transparent::{step_down_new, Constant, DisjointProduct, TransparentPoly};

#[test]
fn field_addition_is_xor() {
    assert_eq!(gf_add(0b1100, 0b1010), 0b0110);
    assert_eq!(gf_add(5, 5), GF_ZERO);
}

#[test]
fn field_mul_identities() {
    assert_eq!(gf_mul(GF_ONE, 7), 7);
    assert_eq!(gf_mul(7, GF_ONE), 7);
    assert_eq!(gf_mul(GF_ZERO, 7), 0);
    assert_eq!(gf_mul(7, GF_ZERO), 0);
}

#[test]
fn field_mul_exact_values() {
    // x * x = x^2.
    assert_eq!(gf_mul(2, 2), 4);
    // (x + 1)^2 = x^2 + 1 in characteristic two.
    assert_eq!(gf_mul(3, 3), 5);
    // x^127 * x reduces by the field polynomial x^128 + x^7 + x^2 + x + 1.
    assert_eq!(gf_mul(1u128 << 127, 2), 0x87);
}

#[test]
fn field_pow_small_exponents() {
    assert_eq!(gf_pow(123456, 0), GF_ONE);
    assert_eq!(gf_pow(123456, 1), 123456);
    assert_eq!(gf_pow(2, 2), 4);
    assert_eq!(gf_pow(2, 3), 8);
    // Powers agree with iterated multiplication.
    let a = 0xdead_beef_u128;
    let mut acc = GF_ONE;
    for _ in 0..9 {
        acc = gf_mul(acc, a);
    }
    assert_eq!(gf_pow(a, 9), acc);
}

#[test]
fn step_down_evaluates_on_vertices() {
    // The mask over two variables with index two covers vertices 0 and 1.
    let sd = step_down_new(2, 2).unwrap();
    assert_eq!(sd.evaluate(&[0, 0]).unwrap(), 1);
    assert_eq!(sd.evaluate(&[1, 0]).unwrap(), 1);
    assert_eq!(sd.evaluate(&[0, 1]).unwrap(), 0);
    assert_eq!(sd.evaluate(&[1, 1]).unwrap(), 0);
}

#[test]
fn step_down_rejects_oversized_index() {
    assert!(step_down_new(2, 5).is_err());
    assert!(step_down_new(2, 4).is_ok());
}

#[test]
fn eq_ind_evaluates() {
    let eq = TransparentPoly::EqInd { n_vars: 1, point: vec![3] };
    // At its own point the indicator is one.
    assert_eq!(eq.evaluate(&[3]).unwrap(), 1);
    // At the complementary vertex of a boolean point it vanishes.
    let eq01 = TransparentPoly::EqInd { n_vars: 1, point: vec![1] };
    assert_eq!(eq01.evaluate(&[0]).unwrap(), 0);
    assert_eq!(eq01.evaluate(&[1]).unwrap(), 1);
}

#[test]
fn constant_evaluates_everywhere() {
    let c = TransparentPoly::Constant(Constant::new(2, 42, 7));
    assert_eq!(c.evaluate(&[5, 9]).unwrap(), 42);
    assert!(c.evaluate(&[5]).is_err());
}

#[test]
fn disjoint_product_multiplies_factor_evaluations() {
    let product = DisjointProduct(
        TransparentPoly::Constant(Constant::new(1, 3, 7)),
        TransparentPoly::EqInd { n_vars: 1, point: vec![1] },
    );
    assert_eq!(product.n_vars(), 2);
    // The first factor reads the low coordinate, the second the rest.
    assert_eq!(product.evaluate(&[9, 1]).unwrap(), 3);
    assert_eq!(product.evaluate(&[9, 0]).unwrap(), 0);
    assert!(product.evaluate(&[9]).is_err());
}
