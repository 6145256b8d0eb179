//! Transparent polynomial oracles: multilinears with a succinct
//! description that the verifier evaluates itself.
//!
//! The closed set of evaluators covers what the pipeline needs: constant
//! polynomials, the step mask that is `1` on the first rows of the
//! hypercube, and the equality indicator of a fixed point. A product
//! over disjoint variables combines two of them.
use vstd::arithmetic::power2::{
    lemma2_to64, lemma2_to64_rest, lemma_pow2_strictly_increases, pow2,
};
use vstd::bits::lemma_u64_shl_is_mul;
use vstd::prelude::*;

use crate::error::Error;
use crate::field::{spec_mul, gf_mul};

verus! {

/// A constant polynomial: every evaluation is `value`. The value lies in
/// the subfield at `tower_level`.
#[derive(Debug, Clone, Copy, PartialEq, Eq, Structural)]
pub struct Constant {
    pub n_vars: usize,
    pub value: u128,
    pub tower_level: usize,
}

impl Constant {
    /// A constant polynomial over the given number of variables.
    pub fn new(n_vars: usize, value: u128, tower_level: usize) -> (r: Self)
        ensures
            r == (Constant { n_vars, value, tower_level }),
    {
        Constant { n_vars, value, tower_level }
    }
}

/// The mathematical value of a transparent polynomial description.
pub ghost enum TransparentModel {
    /// A constant polynomial.
    Constant { n_vars: usize, value: u128, tower_level: usize },
    /// The step mask: one on the first `index` hypercube rows.
    StepDown { n_vars: usize, index: usize },
    /// The equality indicator of a fixed point.
    EqInd { n_vars: usize, point: Seq<u128> },
}

/// A transparent polynomial the verifier can evaluate on its own.
#[derive(Debug, Clone, PartialEq, Eq)]
pub enum TransparentPoly {
    /// A constant polynomial.
    Constant(Constant),
    /// The multilinear extension of the indicator of hypercube points
    /// below `index`: the step mask for the first `index` rows.
    StepDown { n_vars: usize, index: usize },
    /// The equality indicator of the fixed `point`, partially evaluated.
    EqInd { n_vars: usize, point: Vec<u128> },
}

impl View for TransparentPoly {
    type V = TransparentModel;

    open spec fn view(&self) -> TransparentModel {
        match *self {
            TransparentPoly::Constant(c) => TransparentModel::Constant {
                n_vars: c.n_vars,
                value: c.value,
                tower_level: c.tower_level,
            },
            TransparentPoly::StepDown { n_vars, index } => TransparentModel::StepDown {
                n_vars,
                index,
            },
            TransparentPoly::EqInd { n_vars, point } => TransparentModel::EqInd {
                n_vars,
                point: point@,
            },
        }
    }
}

/// The equality-indicator factor for one coordinate:
/// `x * r + (1 - x) * (1 - r)` over the binary field.
pub open spec fn spec_eq_term(x: u128, r: u128) -> u128 {
    spec_mul(x, r) ^ spec_mul(1u128 ^ x, 1u128 ^ r)
}

/// The product of equality-indicator factors for coordinates `i..`.
pub open spec fn spec_eq_ind_eval(point: Seq<u128>, query: Seq<u128>, i: nat) -> u128
    decreases point.len() - i,
{
    if i >= point.len() {
        1u128
    } else {
        spec_mul(
            spec_eq_term(query[i as int], point[i as int]),
            spec_eq_ind_eval(point, query, i + 1),
        )
    }
}

/// The multilinear extension of the indicator of hypercube vertices
/// below `k`, evaluated at the first `n` coordinates of `query`.
/// Coordinate `j` carries bit `j` of a vertex's index.
pub open spec fn spec_step_down_eval(n: nat, k: nat, query: Seq<u128>) -> u128
    decreases n,
{
    if n == 0 {
        if k >= 1 {
            1u128
        } else {
            0u128
        }
    } else {
        let x = query[n - 1];
        let half = pow2((n - 1) as nat);
        if k >= half {
            (1u128 ^ x) ^ spec_mul(x, spec_step_down_eval((n - 1) as nat, (k - half) as nat, query))
        } else {
            spec_mul(1u128 ^ x, spec_step_down_eval((n - 1) as nat, k, query))
        }
    }
}

impl TransparentModel {
    /// The number of variables of the polynomial.
    pub open spec fn n_vars(self) -> usize {
        match self {
            TransparentModel::Constant { n_vars, .. } => n_vars,
            TransparentModel::StepDown { n_vars, .. } => n_vars,
            TransparentModel::EqInd { n_vars, .. } => n_vars,
        }
    }

    /// The maximum tower level of the polynomial's values on the hypercube.
    pub open spec fn tower_level(self) -> usize {
        match self {
            TransparentModel::Constant { tower_level, .. } => tower_level,
            TransparentModel::StepDown { .. } => 0,
            TransparentModel::EqInd { .. } => 7,
        }
    }

    /// Structural well-formedness: step indices lie within the hypercube
    /// and equality points carry one coordinate per variable.
    pub open spec fn wf(self) -> bool {
        match self {
            TransparentModel::Constant { .. } => true,
            TransparentModel::StepDown { n_vars, index } => index <= pow2(n_vars as nat),
            TransparentModel::EqInd { n_vars, point } => point.len() == n_vars,
        }
    }

    /// The polynomial's evaluation at `query`, defined when the query
    /// arity matches the variable count.
    pub open spec fn evaluation(self, query: Seq<u128>) -> u128 {
        match self {
            TransparentModel::Constant { value, .. } => value,
            TransparentModel::StepDown { n_vars, index } => spec_step_down_eval(
                n_vars as nat,
                index as nat,
                query,
            ),
            TransparentModel::EqInd { point, .. } => spec_eq_ind_eval(point, query, 0),
        }
    }
}

impl TransparentPoly {
    /// An equal copy of the polynomial.
    pub fn duplicate(&self) -> (r: Self)
        ensures
            r@ == self@,
    {
        match self {
            TransparentPoly::Constant(c) => TransparentPoly::Constant(*c),
            TransparentPoly::StepDown { n_vars, index } => TransparentPoly::StepDown {
                n_vars: *n_vars,
                index: *index,
            },
            TransparentPoly::EqInd { n_vars, point } => {
                let mut p: Vec<u128> = Vec::new();
                let mut i: usize = 0;
                while i < point.len()
                    invariant
                        i <= point.len(),
                        p@ == point@.take(i as int),
                    decreases point.len() - i,
                {
                    p.push(point[i]);
                    proof {
                        assert(p@ == point@.take(i as int + 1));
                    }
                    i = i + 1;
                }
                proof {
                    assert(point@.take(point.len() as int) == point@);
                }
                TransparentPoly::EqInd { n_vars: *n_vars, point: p }
            },
        }
    }

    /// The number of variables of the polynomial.
    pub fn n_vars(&self) -> (r: usize)
        ensures
            r == self@.n_vars(),
    {
        match self {
            TransparentPoly::Constant(c) => c.n_vars,
            TransparentPoly::StepDown { n_vars, .. } => *n_vars,
            TransparentPoly::EqInd { n_vars, .. } => *n_vars,
        }
    }

    /// The maximum tower level of the polynomial's values on the hypercube.
    pub fn binary_tower_level(&self) -> (r: usize)
        ensures
            r == self@.tower_level(),
    {
        match self {
            TransparentPoly::Constant(c) => c.tower_level,
            TransparentPoly::StepDown { .. } => 0,
            TransparentPoly::EqInd { .. } => 7,
        }
    }

    /// Evaluates the polynomial at the given point, which must supply
    /// exactly one coordinate per variable.
    pub fn evaluate(&self, query: &[u128]) -> (r: Result<u128, Error>)
        requires
            self@.wf(),
        ensures
            query@.len() == self@.n_vars() ==> r == Ok::<u128, Error>(self@.evaluation(query@)),
            query@.len() != self@.n_vars() ==> r == Err::<u128, Error>(
                Error::IncorrectQuerySize { expected: self@.n_vars() },
            ),
    {
        let n = self.n_vars();
        if query.len() != n {
            return Err(Error::IncorrectQuerySize { expected: n });
        }
        match self {
            TransparentPoly::Constant(c) => Ok(c.value),
            TransparentPoly::StepDown { n_vars, index } => Ok(
                step_down_eval_rec(*n_vars, *index, query),
            ),
            TransparentPoly::EqInd { n_vars, point } => Ok(eq_ind_eval(point, query)),
        }
    }
}

/// A product of two transparent polynomials over disjoint variables: the
/// first factor reads the low coordinates, the second the rest.
#[derive(Debug, Clone, PartialEq, Eq)]
pub struct DisjointProduct(pub TransparentPoly, pub TransparentPoly);

impl DisjointProduct {
    /// The number of variables: the factors' counts combined.
    pub fn n_vars(&self) -> (r: usize)
        requires
            self.0@.n_vars() + self.1@.n_vars() <= usize::MAX,
        ensures
            r == self.0@.n_vars() + self.1@.n_vars(),
    {
        self.0.n_vars() + self.1.n_vars()
    }

    /// The maximum tower level of the product's values.
    pub fn binary_tower_level(&self) -> (r: usize)
        ensures
            r == vstd::math::max(self.0@.tower_level() as int, self.1@.tower_level() as int),
    {
        let l0 = self.0.binary_tower_level();
        let l1 = self.1.binary_tower_level();
        if l0 < l1 {
            l1
        } else {
            l0
        }
    }

    /// Evaluates the product: the factors read disjoint coordinate
    /// ranges of the query, and their values are multiplied.
    pub fn evaluate(&self, query: &[u128]) -> (r: Result<u128, Error>)
        requires
            self.0@.wf(),
            self.1@.wf(),
            self.0@.n_vars() + self.1@.n_vars() <= usize::MAX,
        ensures
            query@.len() == self.0@.n_vars() + self.1@.n_vars() ==> r == Ok::<u128, Error>(
                spec_mul(
                    self.0@.evaluation(query@.take(self.0@.n_vars() as int)),
                    self.1@.evaluation(query@.skip(self.0@.n_vars() as int)),
                ),
            ),
            query@.len() != self.0@.n_vars() + self.1@.n_vars() ==> r == Err::<u128, Error>(
                Error::IncorrectQuerySize { expected: (self.0@.n_vars() + self.1@.n_vars()) as usize },
            ),
    {
        let n = self.n_vars();
        if query.len() != n {
            return Err(Error::IncorrectQuerySize { expected: n });
        }
        let n0 = self.0.n_vars();
        let q0 = vstd::slice::slice_subrange(query, 0, n0);
        let q1 = vstd::slice::slice_subrange(query, n0, query.len());
        let e0 = match self.0.evaluate(q0) {
            Ok(v) => v,
            Err(e) => {
                return Err(e);
            },
        };
        let e1 = match self.1.evaluate(q1) {
            Ok(v) => v,
            Err(e) => {
                return Err(e);
            },
        };
        Ok(gf_mul(e0, e1))
    }
}

/// Evaluates the step mask's multilinear extension at a point.
fn step_down_eval_rec(n: usize, k: usize, query: &[u128]) -> (r: u128)
    requires
        n <= query@.len(),
    ensures
        r == spec_step_down_eval(n as nat, k as nat, query@),
    decreases n,
{
    if n == 0 {
        if k >= 1 {
            1u128
        } else {
            0u128
        }
    } else {
        let x = *vstd::slice::slice_index_get(query, n - 1);
        let rest = n - 1;
        if rest >= 64 {
            proof {
                lemma2_to64();
                lemma2_to64_rest();
                if rest > 64 {
                    lemma_pow2_strictly_increases(64, rest as nat);
                }
                assert(k < pow2(rest as nat));
            }
            gf_mul(1u128 ^ x, step_down_eval_rec(rest, k, query))
        } else {
            let half: u64 = 1u64 << (rest as u64);
            proof {
                vstd::bits::lemma_u64_pow2_no_overflow(rest as nat);
                lemma_u64_shl_is_mul(1u64, rest as u64);
            }
            if (k as u64) >= half {
                let k2: usize = k - (half as usize);
                let f = step_down_eval_rec(rest, k2, query);
                (1u128 ^ x) ^ gf_mul(x, f)
            } else {
                gf_mul(1u128 ^ x, step_down_eval_rec(rest, k, query))
            }
        }
    }
}

/// Evaluates the equality indicator of `point` at `query`.
fn eq_ind_eval(point: &Vec<u128>, query: &[u128]) -> (r: u128)
    requires
        point@.len() <= query@.len(),
    ensures
        r == spec_eq_ind_eval(point@, query@, 0),
{
    let mut acc: u128 = 1;
    let mut i: usize = point.len();
    while i > 0
        invariant
            i <= point.len(),
            point@.len() <= query@.len(),
            acc == spec_eq_ind_eval(point@, query@, i as nat),
        decreases i,
    {
        i = i - 1;
        let x = *vstd::slice::slice_index_get(query, i);
        let rr = point[i];
        let term = gf_mul(x, rr) ^ gf_mul(1u128 ^ x, 1u128 ^ rr);
        acc = gf_mul(term, acc);
    }
    acc
}

/// A step mask over `n_vars` variables that is one on the first `index`
/// hypercube rows; the index must lie within the hypercube.
pub fn step_down_new(n_vars: usize, index: usize) -> (r: Result<TransparentPoly, Error>)
    ensures
        index <= pow2(n_vars as nat) ==> r == Ok::<TransparentPoly, Error>(
            TransparentPoly::StepDown { n_vars, index },
        ),
        index > pow2(n_vars as nat) ==> r == Err::<TransparentPoly, Error>(
            Error::FlushCountExceedsOracleSize { id: 0, count: index },
        ),
{
    let ok: bool;
    if n_vars >= 64 {
        proof {
            lemma2_to64();
            lemma2_to64_rest();
            if n_vars > 64 {
                lemma_pow2_strictly_increases(64, n_vars as nat);
            }
        }
        ok = true;
    } else {
        let cap: u64 = 1u64 << (n_vars as u64);
        proof {
            vstd::bits::lemma_u64_pow2_no_overflow(n_vars as nat);
            lemma_u64_shl_is_mul(1u64, n_vars as u64);
        }
        ok = (index as u64) <= cap;
    }
    if ok {
        Ok(TransparentPoly::StepDown { n_vars, index })
    } else {
        Err(Error::FlushCountExceedsOracleSize { id: 0, count: index })
    }
}

} // verus!
