//! Symbolic arithmetic expressions over the tower field.
//!
//! An expression is a tree whose leaves are constants or local variable
//! indices and whose nodes are additions, multiplications and powers; it
//! represents a multivariate polynomial. The `LEVEL` parameter is the
//! tower level of the subfield the constants are drawn from: a value at
//! tower level `l` occupies at most `2^l` bits. All constants are stored
//! in their canonical 128-bit embedding, which the tower structure keeps
//! identical across levels.
use vstd::prelude::*;

use crate::error::Error;

verus! {

/// A symbolic multivariate polynomial over the subfield at tower level `LEVEL`.
#[derive(Debug, PartialEq, Eq)]
pub enum ArithExpr<const LEVEL: usize> {
    /// A constant field element.
    Const(u128),
    /// A local variable, indexed from zero.
    Var(usize),
    /// The sum of two expressions.
    Add(Box<ArithExpr<LEVEL>>, Box<ArithExpr<LEVEL>>),
    /// The product of two expressions.
    Mul(Box<ArithExpr<LEVEL>>, Box<ArithExpr<LEVEL>>),
    /// An expression raised to a constant power.
    Pow(Box<ArithExpr<LEVEL>>, u64),
}

/// Whether a field value fits the subfield at the given tower level,
/// that is, in `2^level` bits.
pub open spec fn fits_level(v: u128, level: usize) -> bool {
    level >= 7 || v < (1u128 << (1u128 << (level as u128)))
}

impl<const LEVEL: usize> ArithExpr<LEVEL> {
    /// The number of variables the expression contains.
    pub open spec fn spec_n_vars(self) -> nat
        decreases self,
    {
        match self {
            ArithExpr::Const(_) => 0,
            ArithExpr::Var(i) => i as nat + 1,
            ArithExpr::Add(l, r) => vstd::math::max(l.spec_n_vars() as int, r.spec_n_vars() as int)
                as nat,
            ArithExpr::Mul(l, r) => vstd::math::max(l.spec_n_vars() as int, r.spec_n_vars() as int)
                as nat,
            ArithExpr::Pow(b, _) => b.spec_n_vars(),
        }
    }

    /// The total degree of the polynomial the expression represents.
    pub open spec fn spec_degree(self) -> nat
        decreases self,
    {
        match self {
            ArithExpr::Const(_) => 0,
            ArithExpr::Var(_) => 1,
            ArithExpr::Add(l, r) => vstd::math::max(l.spec_degree() as int, r.spec_degree() as int)
                as nat,
            ArithExpr::Mul(l, r) => l.spec_degree() + r.spec_degree(),
            ArithExpr::Pow(b, e) => b.spec_degree() * e as nat,
        }
    }

    /// The remapping of the expression's variables through `indices`: a
    /// variable `i` becomes `indices[i]`, and the first variable not
    /// covered by `indices` is reported as the error.
    pub open spec fn spec_remap(self, indices: Seq<usize>) -> Result<ArithExpr<LEVEL>, usize>
        decreases self,
    {
        match self {
            ArithExpr::Const(c) => Ok(ArithExpr::Const(c)),
            ArithExpr::Var(i) => if i < indices.len() {
                Ok(ArithExpr::Var(indices[i as int]))
            } else {
                Err(i)
            },
            ArithExpr::Add(l, r) => match (l.spec_remap(indices), r.spec_remap(indices)) {
                (Ok(nl), Ok(nr)) => Ok(ArithExpr::Add(Box::new(nl), Box::new(nr))),
                (Err(i), _) => Err(i),
                (_, Err(i)) => Err(i),
            },
            ArithExpr::Mul(l, r) => match (l.spec_remap(indices), r.spec_remap(indices)) {
                (Ok(nl), Ok(nr)) => Ok(ArithExpr::Mul(Box::new(nl), Box::new(nr))),
                (Err(i), _) => Err(i),
                (_, Err(i)) => Err(i),
            },
            ArithExpr::Pow(b, e) => match b.spec_remap(indices) {
                Ok(nb) => Ok(ArithExpr::Pow(Box::new(nb), e)),
                Err(i) => Err(i),
            },
        }
    }

    /// The first constant, in traversal order, that does not fit the
    /// subfield at `level`, if any.
    pub open spec fn spec_check_fits(self, level: usize) -> Result<(), u128>
        decreases self,
    {
        match self {
            ArithExpr::Const(c) => if fits_level(c, level) {
                Ok(())
            } else {
                Err(c)
            },
            ArithExpr::Var(_) => Ok(()),
            ArithExpr::Add(l, r) => if l.spec_check_fits(level) is Err {
                l.spec_check_fits(level)
            } else {
                r.spec_check_fits(level)
            },
            ArithExpr::Mul(l, r) => if l.spec_check_fits(level) is Err {
                l.spec_check_fits(level)
            } else {
                r.spec_check_fits(level)
            },
            ArithExpr::Pow(b, _) => b.spec_check_fits(level),
        }
    }

    /// The same expression read as an expression of another subfield.
    pub open spec fn spec_convert<const TARGET: usize>(self) -> ArithExpr<TARGET>
        decreases self,
    {
        match self {
            ArithExpr::Const(c) => ArithExpr::Const(c),
            ArithExpr::Var(i) => ArithExpr::Var(i),
            ArithExpr::Add(l, r) => ArithExpr::Add(
                Box::new(l.spec_convert()),
                Box::new(r.spec_convert()),
            ),
            ArithExpr::Mul(l, r) => ArithExpr::Mul(
                Box::new(l.spec_convert()),
                Box::new(r.spec_convert()),
            ),
            ArithExpr::Pow(b, e) => ArithExpr::Pow(Box::new(b.spec_convert()), e),
        }
    }

    /// An equal copy of the expression.
    pub fn duplicate(&self) -> (r: Self)
        ensures
            r == *self,
        decreases self,
    {
        match self {
            ArithExpr::Const(c) => ArithExpr::Const(*c),
            ArithExpr::Var(i) => ArithExpr::Var(*i),
            ArithExpr::Add(l, r) => ArithExpr::Add(Box::new(l.duplicate()), Box::new(r.duplicate())),
            ArithExpr::Mul(l, r) => ArithExpr::Mul(Box::new(l.duplicate()), Box::new(r.duplicate())),
            ArithExpr::Pow(b, e) => ArithExpr::Pow(Box::new(b.duplicate()), *e),
        }
    }

    /// The additive identity as an expression.
    pub fn zero() -> (r: Self)
        ensures
            r == ArithExpr::<LEVEL>::Const(0u128),
    {
        ArithExpr::Const(0)
    }

    /// The multiplicative identity as an expression.
    pub fn one() -> (r: Self)
        ensures
            r == ArithExpr::<LEVEL>::Const(1u128),
    {
        ArithExpr::Const(1)
    }

    /// Raises the expression to a constant power.
    pub fn pow(self, exp: u64) -> (r: Self)
        ensures
            r == ArithExpr::Pow(Box::new(self), exp),
    {
        ArithExpr::Pow(Box::new(self), exp)
    }

    /// The number of variables the expression contains.
    pub fn n_vars(&self) -> (r: usize)
        requires
            self.spec_n_vars() <= usize::MAX,
        ensures
            r == self.spec_n_vars(),
        decreases self,
    {
        match self {
            ArithExpr::Const(_) => 0,
            ArithExpr::Var(i) => *i + 1,
            ArithExpr::Add(l, r) => {
                let nl = l.n_vars();
                let nr = r.n_vars();
                if nl < nr {
                    nr
                } else {
                    nl
                }
            },
            ArithExpr::Mul(l, r) => {
                let nl = l.n_vars();
                let nr = r.n_vars();
                if nl < nr {
                    nr
                } else {
                    nl
                }
            },
            ArithExpr::Pow(b, _) => b.n_vars(),
        }
    }

    /// The total degree of the polynomial the expression represents.
    #[verifier::rlimit(50)]
    pub fn degree(&self) -> (r: usize)
        requires
            self.spec_degree() <= usize::MAX,
        ensures
            r == self.spec_degree(),
        decreases self,
    {
        match self {
            ArithExpr::Const(_) => 0,
            ArithExpr::Var(_) => 1,
            ArithExpr::Add(l, r) => {
                let dl = l.degree();
                let dr = r.degree();
                if dl < dr {
                    dr
                } else {
                    dl
                }
            },
            ArithExpr::Mul(l, r) => {
                let dl = l.degree();
                let dr = r.degree();
                dl + dr
            },
            ArithExpr::Pow(b, e) => {
                if *e == 0 {
                    proof {
                        assert(b.spec_degree() * (*e as nat) == 0) by (nonlinear_arith)
                            requires
                                *e as nat == 0,
                        ;
                    }
                    0
                } else {
                    proof {
                        lemma_mul_le_helper(b.spec_degree(), *e as nat);
                    }
                    let db = b.degree();
                    if db == 0 {
                        proof {
                            assert(0nat * (*e as nat) == 0) by (nonlinear_arith);
                        }
                        0
                    } else {
                        proof {
                            lemma_mul_le_helper2(b.spec_degree(), *e as nat);
                            assert(*e as nat <= usize::MAX as nat);
                            assert((*e as usize) as nat == *e as nat);
                        }
                        db * (*e as usize)
                    }
                }
            },
        }
    }

    /// The total degree, or nothing when it exceeds the machine word.
    pub fn degree_checked(&self) -> (r: Option<usize>)
        ensures
            r matches Some(d) ==> d == self.spec_degree(),
            r is None ==> self.spec_degree() > usize::MAX,
        decreases self,
    {
        match self {
            ArithExpr::Const(_) => Some(0),
            ArithExpr::Var(_) => Some(1),
            ArithExpr::Add(l, r) => {
                let dl = match l.degree_checked() {
                    Some(d) => d,
                    None => {
                        return None;
                    },
                };
                let dr = match r.degree_checked() {
                    Some(d) => d,
                    None => {
                        return None;
                    },
                };
                if dl < dr {
                    Some(dr)
                } else {
                    Some(dl)
                }
            },
            ArithExpr::Mul(l, r) => {
                let dl = match l.degree_checked() {
                    Some(d) => d,
                    None => {
                        return None;
                    },
                };
                let dr = match r.degree_checked() {
                    Some(d) => d,
                    None => {
                        return None;
                    },
                };
                if dl <= usize::MAX - dr {
                    Some(dl + dr)
                } else {
                    None
                }
            },
            ArithExpr::Pow(b, e) => {
                if *e == 0 {
                    proof {
                        assert(b.spec_degree() * (*e as nat) == 0) by (nonlinear_arith)
                            requires
                                *e as nat == 0,
                        ;
                    }
                    return Some(0);
                }
                let db = match b.degree_checked() {
                    Some(d) => d,
                    None => {
                        proof {
                            lemma_mul_le_helper(b.spec_degree(), *e as nat);
                        }
                        return None;
                    },
                };
                if db == 0 {
                    proof {
                        assert(0nat * (*e as nat) == 0) by (nonlinear_arith);
                    }
                    return Some(0);
                }
                if *e <= (usize::MAX as u64) && db <= usize::MAX / (*e as usize) {
                    proof {
                        assert(db * (*e as int) <= usize::MAX) by (nonlinear_arith)
                            requires
                                db <= usize::MAX as int / (*e as int),
                                1 <= *e as int,
                                0 <= db,
                        ;
                    }
                    Some(db * (*e as usize))
                } else {
                    proof {
                        lemma_deg_big(b.spec_degree(), *e as nat, usize::MAX as nat, db as nat);
                    }
                    None
                }
            },
        }
    }

    /// Creates a new expression with the variable indices remapped:
    /// each variable `i` is replaced by `indices[i]`.
    pub fn remap_vars(self, indices: &Vec<usize>) -> (r: Result<Self, Error>)
        ensures
            match self.spec_remap(indices@) {
                Ok(v) => r == Ok::<Self, Error>(v),
                Err(i) => r == Err::<Self, Error>(Error::IncorrectArgumentLength { expected: i }),
            },
        decreases self,
    {
        match self {
            ArithExpr::Const(c) => Ok(ArithExpr::Const(c)),
            ArithExpr::Var(i) => {
                if i < indices.len() {
                    Ok(ArithExpr::Var(indices[i]))
                } else {
                    Err(Error::IncorrectArgumentLength { expected: i })
                }
            },
            ArithExpr::Add(l, r) => {
                let nl = (*l).remap_vars(indices)?;
                let nr = (*r).remap_vars(indices)?;
                Ok(ArithExpr::Add(Box::new(nl), Box::new(nr)))
            },
            ArithExpr::Mul(l, r) => {
                let nl = (*l).remap_vars(indices)?;
                let nr = (*r).remap_vars(indices)?;
                Ok(ArithExpr::Mul(Box::new(nl), Box::new(nr)))
            },
            ArithExpr::Pow(b, e) => {
                let nb = (*b).remap_vars(indices)?;
                Ok(ArithExpr::Pow(Box::new(nb), e))
            },
        }
    }

    /// Reads the expression as one of a larger subfield; the canonical
    /// embedding keeps every constant's bit pattern.
    pub fn convert_field<const TARGET: usize>(&self) -> (r: ArithExpr<TARGET>)
        requires
            LEVEL <= TARGET,
        ensures
            r == self.spec_convert::<TARGET>(),
    {
        self.convert_unchecked()
    }

    /// Rebuilds the expression over another subfield without any check.
    fn convert_unchecked<const TARGET: usize>(&self) -> (r: ArithExpr<TARGET>)
        ensures
            r == self.spec_convert::<TARGET>(),
        decreases self,
    {
        match self {
            ArithExpr::Const(c) => ArithExpr::Const(*c),
            ArithExpr::Var(i) => ArithExpr::Var(*i),
            ArithExpr::Add(l, r) => ArithExpr::Add(
                Box::new(l.convert_unchecked()),
                Box::new(r.convert_unchecked()),
            ),
            ArithExpr::Mul(l, r) => ArithExpr::Mul(
                Box::new(l.convert_unchecked()),
                Box::new(r.convert_unchecked()),
            ),
            ArithExpr::Pow(b, e) => ArithExpr::Pow(Box::new(b.convert_unchecked()), *e),
        }
    }

    /// Reads the expression as one of a possibly smaller subfield,
    /// failing on the first constant whose value does not fit it.
    pub fn try_convert_field<const TARGET: usize>(&self) -> (r: Result<ArithExpr<TARGET>, Error>)
        ensures
            match self.spec_check_fits(TARGET) {
                Ok(_) => r == Ok::<ArithExpr<TARGET>, Error>(self.spec_convert::<TARGET>()),
                Err(c) => r == Err::<ArithExpr<TARGET>, Error>(Error::NotInSubfield { value: c }),
            },
        decreases self,
    {
        match self {
            ArithExpr::Const(c) => {
                if fits_level_exec(*c, TARGET) {
                    Ok(ArithExpr::Const(*c))
                } else {
                    Err(Error::NotInSubfield { value: *c })
                }
            },
            ArithExpr::Var(i) => Ok(ArithExpr::Var(*i)),
            ArithExpr::Add(l, r) => {
                let nl = l.try_convert_field()?;
                let nr = r.try_convert_field()?;
                Ok(ArithExpr::Add(Box::new(nl), Box::new(nr)))
            },
            ArithExpr::Mul(l, r) => {
                let nl = l.try_convert_field()?;
                let nr = r.try_convert_field()?;
                Ok(ArithExpr::Mul(Box::new(nl), Box::new(nr)))
            },
            ArithExpr::Pow(b, e) => {
                let nb = b.try_convert_field()?;
                Ok(ArithExpr::Pow(Box::new(nb), *e))
            },
        }
    }
}

/// A large base-degree or exponent pushes the product past the bound.
proof fn lemma_deg_big(d: nat, e: nat, cap: nat, db: nat)
    requires
        d == db,
        e >= 1,
        db >= 1,
        !(e <= cap && db <= cap / e),
    ensures
        d * e > cap,
{
    if e > cap {
        assert(d * e >= 1 * e) by (nonlinear_arith)
            requires
                d >= 1,
                e >= 0,
        ;
    } else {
        assert(db > cap / e);
        assert(db * e > cap) by (nonlinear_arith)
            requires
                db > cap / e,
                e >= 1,
        ;
    }
}

/// With a positive exponent, the base's degree is at most the power's degree.
proof fn lemma_mul_le_helper(d: nat, e: nat)
    requires
        e >= 1,
    ensures
        d <= d * e,
{
    assert(d * 1 <= d * e) by (nonlinear_arith)
        requires
            e >= 1,
    ;
}

/// With a positive base degree, the exponent is at most the power's degree.
proof fn lemma_mul_le_helper2(d: nat, e: nat)
    requires
        d >= 1,
    ensures
        e <= d * e,
{
    assert(1 * e <= d * e) by (nonlinear_arith)
        requires
            d >= 1,
    ;
}

/// Whether a field value fits the subfield at the given tower level.
pub fn fits_level_exec(v: u128, level: usize) -> (r: bool)
    ensures
        r == fits_level(v, level),
{
    if level >= 7 {
        true
    } else {
        let bits: u128 = 1u128 << (level as u128);
        proof {
            let l = level as u128;
            assert(1u128 << l <= 64u128) by (bit_vector)
                requires
                    l <= 6u128,
            ;
        }
        v < (1u128 << bits)
    }
}

} // verus!
