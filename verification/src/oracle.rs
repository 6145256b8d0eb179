//! The append-only multilinear-oracle graph.
//!
//! Oracles are stored in an arena addressed by dense integer handles; a
//! derived descriptor references only strictly lower handles, so the
//! graph is acyclic by construction and a handle is valid exactly when
//! it is below the graph's size. Each constructor validates its
//! preconditions and, on failure, leaves the graph unchanged.
use vstd::arithmetic::power2::pow2;
use vstd::bits::{lemma_u64_pow2_no_overflow, lemma_u64_shl_is_mul};
use vstd::prelude::*;

use crate::error::Error;
use crate::transparent::{TransparentModel, TransparentPoly};

verus! {

/// Identifier for a multilinear oracle in a [`MultilinearOracleSet`].
pub type OracleId = usize;

/// Which end of the variable tuple a projection fixes.
#[derive(Debug, Clone, Copy, PartialEq, Eq, Structural)]
pub enum ProjectionVariant {
    FirstVars,
    LastVars,
}

/// The shift applied to each block of a shifted oracle.
#[derive(Debug, Clone, Copy, PartialEq, Eq, Structural)]
pub enum ShiftVariant {
    CircularLeft,
    LogicalLeft,
    LogicalRight,
}

/// The mathematical value of one oracle descriptor.
pub ghost enum OracleModel {
    /// A transparent polynomial the verifier evaluates itself.
    Transparent { poly: TransparentModel },
    /// A polynomial committed through the commitment scheme.
    Committed { n_vars: usize, tower_level: usize },
    /// The inner oracle repeated `2^log_count` times.
    Repeating { inner: usize, log_count: usize },
    /// The inner oracle with its first or last variables fixed.
    Projected { inner: usize, values: Seq<u128>, variant: ProjectionVariant },
    /// The inner oracle shifted inside blocks of `2^block_size` rows.
    Shifted { inner: usize, shift_offset: usize, block_size: usize, variant: ShiftVariant },
    /// The inner oracle packed `2^log_degree` coefficients at a time.
    Packed { inner: usize, log_degree: usize },
    /// An affine combination of same-arity oracles.
    LinearCombination { n_vars: usize, offset: u128, terms: Seq<(usize, u128)> },
    /// The inner oracle zero-extended to a larger hypercube.
    ZeroPadded { inner: usize, n_vars: usize },
}

/// One oracle descriptor of the graph.
#[derive(Debug, Clone, PartialEq, Eq)]
pub enum MultilinearPolyOracle {
    /// A transparent polynomial the verifier evaluates itself.
    Transparent { poly: TransparentPoly },
    /// A polynomial committed through the commitment scheme.
    Committed { n_vars: usize, tower_level: usize },
    /// The inner oracle repeated `2^log_count` times.
    Repeating { inner: OracleId, log_count: usize },
    /// The inner oracle with its first or last variables fixed.
    Projected { inner: OracleId, values: Vec<u128>, variant: ProjectionVariant },
    /// The inner oracle shifted inside blocks of `2^block_size` rows.
    Shifted { inner: OracleId, shift_offset: usize, block_size: usize, variant: ShiftVariant },
    /// The inner oracle packed `2^log_degree` coefficients at a time.
    Packed { inner: OracleId, log_degree: usize },
    /// An affine combination of same-arity oracles.
    LinearCombination { n_vars: usize, offset: u128, terms: Vec<(OracleId, u128)> },
    /// The inner oracle zero-extended to a larger hypercube.
    ZeroPadded { inner: OracleId, n_vars: usize },
}

impl View for MultilinearPolyOracle {
    type V = OracleModel;

    open spec fn view(&self) -> OracleModel {
        match *self {
            MultilinearPolyOracle::Transparent { poly } => OracleModel::Transparent { poly: poly@ },
            MultilinearPolyOracle::Committed { n_vars, tower_level } => OracleModel::Committed {
                n_vars,
                tower_level,
            },
            MultilinearPolyOracle::Repeating { inner, log_count } => OracleModel::Repeating {
                inner,
                log_count,
            },
            MultilinearPolyOracle::Projected { inner, values, variant } => OracleModel::Projected {
                inner,
                values: values@,
                variant,
            },
            MultilinearPolyOracle::Shifted { inner, shift_offset, block_size, variant } => OracleModel::Shifted {
                inner,
                shift_offset,
                block_size,
                variant,
            },
            MultilinearPolyOracle::Packed { inner, log_degree } => OracleModel::Packed {
                inner,
                log_degree,
            },
            MultilinearPolyOracle::LinearCombination { n_vars, offset, terms } => OracleModel::LinearCombination {
                n_vars,
                offset,
                terms: terms@,
            },
            MultilinearPolyOracle::ZeroPadded { inner, n_vars } => OracleModel::ZeroPadded {
                inner,
                n_vars,
            },
        }
    }
}

/// The variable count of oracle `id` in the graph `s`, following inner
/// references; derived kinds compute it from their definition.
pub open spec fn model_n_vars(s: Seq<OracleModel>, id: int) -> int
    decreases id,
{
    if id < 0 || id >= s.len() {
        0
    } else {
        match s[id] {
            OracleModel::Transparent { poly } => poly.n_vars() as int,
            OracleModel::Committed { n_vars, .. } => n_vars as int,
            OracleModel::Repeating { inner, log_count } => if inner < id {
                model_n_vars(s, inner as int) + log_count
            } else {
                0
            },
            OracleModel::Projected { inner, values, .. } => if inner < id {
                model_n_vars(s, inner as int) - values.len()
            } else {
                0
            },
            OracleModel::Shifted { inner, .. } => if inner < id {
                model_n_vars(s, inner as int)
            } else {
                0
            },
            OracleModel::Packed { inner, log_degree } => if inner < id {
                model_n_vars(s, inner as int) - log_degree
            } else {
                0
            },
            OracleModel::LinearCombination { n_vars, .. } => n_vars as int,
            OracleModel::ZeroPadded { n_vars, .. } => n_vars as int,
        }
    }
}

/// The maximum tower level of the linear combination's terms `i..`.
pub open spec fn lc_max_level(s: Seq<OracleModel>, terms: Seq<(usize, u128)>, i: int, id: int) -> int
    decreases id, 0int, terms.len() - i,
{
    if i < 0 || i >= terms.len() {
        0
    } else {
        let inner = terms[i].0 as int;
        let l = if 0 <= inner < id {
            model_tower_level(s, inner)
        } else {
            0
        };
        vstd::math::max(l, lc_max_level(s, terms, i + 1, id))
    }
}

/// The maximum tower level of oracle `id`'s values on the hypercube.
pub open spec fn model_tower_level(s: Seq<OracleModel>, id: int) -> int
    decreases id, 1int, 0int,
{
    if id < 0 || id >= s.len() {
        0
    } else {
        match s[id] {
            OracleModel::Transparent { poly } => poly.tower_level() as int,
            OracleModel::Committed { tower_level, .. } => tower_level as int,
            OracleModel::Repeating { inner, .. } => if inner < id {
                model_tower_level(s, inner as int)
            } else {
                0
            },
            OracleModel::Projected { inner, .. } => if inner < id {
                model_tower_level(s, inner as int)
            } else {
                0
            },
            OracleModel::Shifted { inner, .. } => if inner < id {
                model_tower_level(s, inner as int)
            } else {
                0
            },
            OracleModel::Packed { inner, log_degree } => if inner < id {
                model_tower_level(s, inner as int) + log_degree
            } else {
                0
            },
            OracleModel::LinearCombination { terms, .. } => lc_max_level(s, terms, 0, id),
            OracleModel::ZeroPadded { inner, .. } => if inner < id {
                model_tower_level(s, inner as int)
            } else {
                0
            },
        }
    }
}

/// The maximum over an empty or any term range is never negative.
pub proof fn lemma_lc_max_nonneg(s: Seq<OracleModel>, terms: Seq<(usize, u128)>, i: int, id: int)
    ensures
        lc_max_level(s, terms, i, id) >= 0,
    decreases terms.len() - i,
{
    if i < 0 || i >= terms.len() {
    } else {
        lemma_lc_max_nonneg(s, terms, i + 1, id);
    }
}

/// The validity of descriptor `i` against the earlier part of the graph:
/// inner references point strictly below `i` and the kind's parameters
/// respect its preconditions.
pub open spec fn oracle_ok(s: Seq<OracleModel>, i: int) -> bool {
    match s[i] {
        OracleModel::Transparent { poly } => poly.wf() && poly.tower_level() <= 7,
        OracleModel::Committed { .. } => true,
        OracleModel::Repeating { inner, log_count } => inner < i && model_n_vars(s, inner as int)
            + log_count <= usize::MAX,
        OracleModel::Projected { inner, values, .. } => inner < i && values.len() <= model_n_vars(
            s,
            inner as int,
        ),
        OracleModel::Shifted { inner, shift_offset, block_size, .. } => inner < i && block_size
            <= model_n_vars(s, inner as int) && 1 <= shift_offset && shift_offset < pow2(
            block_size as nat,
        ),
        OracleModel::Packed { inner, log_degree } => inner < i && log_degree <= model_n_vars(
            s,
            inner as int,
        ) && model_tower_level(s, inner as int) + log_degree <= usize::MAX,
        OracleModel::LinearCombination { n_vars, terms, .. } => forall|j: int|
            0 <= j < terms.len() ==> (#[trigger] terms[j]).0 < i && model_n_vars(
                s,
                terms[j].0 as int,
            ) == n_vars,
        OracleModel::ZeroPadded { inner, n_vars } => inner < i && model_n_vars(s, inner as int)
            <= n_vars,
    }
}

/// The well-formedness of the whole graph.
pub open spec fn graph_wf(s: Seq<OracleModel>) -> bool {
    forall|i: int| 0 <= i < s.len() ==> oracle_ok(s, i)
}

/// An ordered, append-only set of multilinear polynomial oracles,
/// forming a directed acyclic graph addressed by dense handles.
#[derive(Debug)]
pub struct MultilinearOracleSet {
    oracles: Vec<MultilinearPolyOracle>,
}

impl View for MultilinearOracleSet {
    type V = Seq<OracleModel>;

    closed spec fn view(&self) -> Seq<OracleModel> {
        self.oracles@.map_values(|o: MultilinearPolyOracle| o@)
    }
}

/// Appending to a graph keeps every earlier descriptor's variable count.
pub proof fn lemma_n_vars_push_stable(s: Seq<OracleModel>, m: OracleModel, id: int)
    requires
        0 <= id < s.len(),
    ensures
        model_n_vars(s.push(m), id) == model_n_vars(s, id),
    decreases id,
{
    match s[id] {
        OracleModel::Repeating { inner, .. } => {
            if inner < id {
                lemma_n_vars_push_stable(s, m, inner as int);
            }
        },
        OracleModel::Projected { inner, .. } => {
            if inner < id {
                lemma_n_vars_push_stable(s, m, inner as int);
            }
        },
        OracleModel::Shifted { inner, .. } => {
            if inner < id {
                lemma_n_vars_push_stable(s, m, inner as int);
            }
        },
        OracleModel::Packed { inner, .. } => {
            if inner < id {
                lemma_n_vars_push_stable(s, m, inner as int);
            }
        },
        _ => {},
    }
}

/// Appending to a graph keeps every earlier descriptor's tower level.
pub proof fn lemma_tower_level_push_stable(s: Seq<OracleModel>, m: OracleModel, id: int)
    requires
        0 <= id < s.len(),
    ensures
        model_tower_level(s.push(m), id) == model_tower_level(s, id),
    decreases id, 1int, 0int,
{
    match s[id] {
        OracleModel::Repeating { inner, .. } => {
            if inner < id {
                lemma_tower_level_push_stable(s, m, inner as int);
            }
        },
        OracleModel::Projected { inner, .. } => {
            if inner < id {
                lemma_tower_level_push_stable(s, m, inner as int);
            }
        },
        OracleModel::Shifted { inner, .. } => {
            if inner < id {
                lemma_tower_level_push_stable(s, m, inner as int);
            }
        },
        OracleModel::Packed { inner, .. } => {
            if inner < id {
                lemma_tower_level_push_stable(s, m, inner as int);
            }
        },
        OracleModel::LinearCombination { terms, .. } => {
            lemma_lc_level_push_stable(s, m, terms, 0, id);
        },
        OracleModel::ZeroPadded { inner, .. } => {
            if inner < id {
                lemma_tower_level_push_stable(s, m, inner as int);
            }
        },
        _ => {},
    }
}

/// The push-stability of the maximum level over a combination's terms.
pub proof fn lemma_lc_level_push_stable(
    s: Seq<OracleModel>,
    m: OracleModel,
    terms: Seq<(usize, u128)>,
    i: int,
    id: int,
)
    requires
        0 <= id < s.len(),
    ensures
        lc_max_level(s.push(m), terms, i, id) == lc_max_level(s, terms, i, id),
    decreases id, 0int, terms.len() - i,
{
    if 0 <= i < terms.len() {
        let inner = terms[i].0 as int;
        if 0 <= inner < id {
            lemma_tower_level_push_stable(s, m, inner);
        }
        lemma_lc_level_push_stable(s, m, terms, i + 1, id);
    }
}

/// Appending to a well-formed graph keeps it well-formed as long as the
/// new descriptor is valid at the end.
pub proof fn lemma_graph_wf_push(s: Seq<OracleModel>, m: OracleModel)
    requires
        graph_wf(s),
        oracle_ok(s.push(m), s.len() as int),
    ensures
        graph_wf(s.push(m)),
{
    let s2 = s.push(m);
    assert forall|i: int| 0 <= i < s2.len() implies oracle_ok(s2, i) by {
        if i < s.len() {
            assert(oracle_ok(s, i));
            lemma_oracle_ok_push_stable(s, m, i);
        }
    }
}

/// A valid descriptor stays valid when the graph grows behind it.
pub proof fn lemma_oracle_ok_push_stable(s: Seq<OracleModel>, m: OracleModel, i: int)
    requires
        0 <= i < s.len(),
        oracle_ok(s, i),
    ensures
        oracle_ok(s.push(m), i),
{
    let s2 = s.push(m);
    match s[i] {
        OracleModel::Repeating { inner, .. } => {
            lemma_n_vars_push_stable(s, m, inner as int);
        },
        OracleModel::Projected { inner, .. } => {
            lemma_n_vars_push_stable(s, m, inner as int);
        },
        OracleModel::Shifted { inner, .. } => {
            lemma_n_vars_push_stable(s, m, inner as int);
        },
        OracleModel::Packed { inner, .. } => {
            lemma_n_vars_push_stable(s, m, inner as int);
            lemma_tower_level_push_stable(s, m, inner as int);
        },
        OracleModel::LinearCombination { n_vars, terms, .. } => {
            assert forall|j: int| 0 <= j < terms.len() implies (#[trigger] terms[j]).0 < i
                && model_n_vars(s2, terms[j].0 as int) == n_vars by {
                lemma_n_vars_push_stable(s, m, terms[j].0 as int);
            }
        },
        OracleModel::ZeroPadded { inner, .. } => {
            lemma_n_vars_push_stable(s, m, inner as int);
        },
        _ => {},
    }
}

impl MultilinearOracleSet {
    /// An empty oracle set.
    pub fn new() -> (r: Self)
        ensures
            r@ == Seq::<OracleModel>::empty(),
            r.wf(),
    {
        let r = MultilinearOracleSet { oracles: Vec::new() };
        proof {
            assert(r@ =~= Seq::<OracleModel>::empty());
        }
        r
    }

    /// The graph's well-formedness.
    pub open spec fn wf(&self) -> bool {
        graph_wf(self@)
    }

    /// The number of registered oracles.
    pub fn size(&self) -> (r: usize)
        ensures
            r == self@.len(),
    {
        self.oracles.len()
    }

    /// Whether a handle refers to a registered oracle.
    pub fn is_valid_oracle_id(&self, id: OracleId) -> (r: bool)
        ensures
            r == (id < self@.len()),
    {
        id < self.oracles.len()
    }

    /// A copy of the descriptor behind a handle.
    pub fn oracle(&self, id: OracleId) -> (r: MultilinearPolyOracle)
        requires
            id < self@.len(),
        ensures
            r@ == self@[id as int],
    {
        let o = &self.oracles[id];
        match o {
            MultilinearPolyOracle::Transparent { poly } => MultilinearPolyOracle::Transparent {
                poly: poly.duplicate(),
            },
            MultilinearPolyOracle::Committed { n_vars, tower_level } => MultilinearPolyOracle::Committed {
                n_vars: *n_vars,
                tower_level: *tower_level,
            },
            MultilinearPolyOracle::Repeating { inner, log_count } => MultilinearPolyOracle::Repeating {
                inner: *inner,
                log_count: *log_count,
            },
            MultilinearPolyOracle::Projected { inner, values, variant } => MultilinearPolyOracle::Projected {
                inner: *inner,
                values: copy_u128s(values),
                variant: *variant,
            },
            MultilinearPolyOracle::Shifted { inner, shift_offset, block_size, variant } => MultilinearPolyOracle::Shifted {
                inner: *inner,
                shift_offset: *shift_offset,
                block_size: *block_size,
                variant: *variant,
            },
            MultilinearPolyOracle::Packed { inner, log_degree } => MultilinearPolyOracle::Packed {
                inner: *inner,
                log_degree: *log_degree,
            },
            MultilinearPolyOracle::LinearCombination { n_vars, offset, terms } => MultilinearPolyOracle::LinearCombination {
                n_vars: *n_vars,
                offset: *offset,
                terms: copy_terms(terms),
            },
            MultilinearPolyOracle::ZeroPadded { inner, n_vars } => MultilinearPolyOracle::ZeroPadded {
                inner: *inner,
                n_vars: *n_vars,
            },
        }
    }

    /// A copy of the whole graph, sharing no storage with the original.
    pub fn duplicate(&self) -> (r: Self)
        ensures
            r@ == self@,
    {
        let mut v: Vec<MultilinearPolyOracle> = Vec::new();
        let mut i: usize = 0;
        while i < self.oracles.len()
            invariant
                i <= self.oracles.len(),
                v@.len() == i,
                forall|j: int| 0 <= j < i ==> (#[trigger] v@[j])@ == self@[j],
            decreases self.oracles.len() - i,
        {
            let o = self.oracle(i);
            v.push(o);
            i = i + 1;
        }
        let r = MultilinearOracleSet { oracles: v };
        proof {
            assert(r@ =~= self@);
        }
        r
    }

    /// The variable count of the oracle behind a handle.
    pub fn n_vars(&self, id: OracleId) -> (r: usize)
        requires
            self.wf(),
            id < self@.len(),
        ensures
            r == model_n_vars(self@, id as int),
        decreases id,
    {
        proof {
            assert(oracle_ok(self@, id as int));
            lemma_model_n_vars_bounds(self@, id as int);
        }
        match &self.oracles[id] {
            MultilinearPolyOracle::Transparent { poly } => poly.n_vars(),
            MultilinearPolyOracle::Committed { n_vars, .. } => *n_vars,
            MultilinearPolyOracle::Repeating { inner, log_count } => {
                let nv = self.n_vars(*inner);
                nv + *log_count
            },
            MultilinearPolyOracle::Projected { inner, values, .. } => {
                let nv = self.n_vars(*inner);
                nv - values.len()
            },
            MultilinearPolyOracle::Shifted { inner, .. } => self.n_vars(*inner),
            MultilinearPolyOracle::Packed { inner, log_degree } => {
                let nv = self.n_vars(*inner);
                nv - *log_degree
            },
            MultilinearPolyOracle::LinearCombination { n_vars, .. } => *n_vars,
            MultilinearPolyOracle::ZeroPadded { n_vars, .. } => *n_vars,
        }
    }

    /// The maximum tower level of the oracle's values over the hypercube.
    pub fn tower_level(&self, id: OracleId) -> (r: usize)
        requires
            self.wf(),
            id < self@.len(),
        ensures
            r == model_tower_level(self@, id as int),
        decreases id,
    {
        proof {
            assert(oracle_ok(self@, id as int));
            lemma_model_tower_level_bounds(self@, id as int);
        }
        match &self.oracles[id] {
            MultilinearPolyOracle::Transparent { poly } => poly.binary_tower_level(),
            MultilinearPolyOracle::Committed { tower_level, .. } => *tower_level,
            MultilinearPolyOracle::Repeating { inner, .. } => self.tower_level(*inner),
            MultilinearPolyOracle::Projected { inner, .. } => self.tower_level(*inner),
            MultilinearPolyOracle::Shifted { inner, .. } => self.tower_level(*inner),
            MultilinearPolyOracle::Packed { inner, log_degree } => {
                let l = self.tower_level(*inner);
                l + *log_degree
            },
            MultilinearPolyOracle::LinearCombination { terms, .. } => {
                let ghost s = self@;
                let ghost gid = id as int;
                let mut acc: usize = 0;
                let mut i: usize = terms.len();
                proof {
                    assert(lc_max_level(s, terms@, i as int, gid) == 0);
                }
                while i > 0
                    invariant
                        i <= terms@.len(),
                        self.wf(),
                        gid == id as int,
                        s == self@,
                        id < self@.len(),
                        self@[gid] matches OracleModel::LinearCombination { terms: t2, .. }
                            && t2 == terms@,
                        acc == lc_max_level(s, terms@, i as int, gid),
                    decreases i,
                {
                    i = i - 1;
                    let (inner, _c) = terms[i];
                    proof {
                        assert(oracle_ok(s, gid));
                        assert((terms@[i as int]).0 < gid);
                        lemma_model_tower_level_bounds(s, inner as int);
                    }
                    let l = self.tower_level(inner);
                    if l > acc {
                        acc = l;
                    }
                }
                acc
            },
            MultilinearPolyOracle::ZeroPadded { inner, .. } => self.tower_level(*inner),
        }
    }

    /// Registers a committed oracle and returns its fresh handle.
    pub fn add_committed(&mut self, n_vars: usize, tower_level: usize) -> (id: OracleId)
        requires
            old(self).wf(),
        ensures
            final(self).wf(),
            final(self)@ == old(self)@.push(OracleModel::Committed { n_vars, tower_level }),
            id == old(self)@.len(),
    {
        let id = self.oracles.len();
        let m = MultilinearPolyOracle::Committed { n_vars, tower_level };
        proof {
            lemma_graph_wf_push(self@, m@);
            assert(self@.push(m@) =~= self.oracles@.push(m).map_values(
                |o: MultilinearPolyOracle| o@,
            ));
        }
        self.oracles.push(m);
        id
    }

    /// Registers a transparent oracle; its values must stay within the
    /// field's tower height.
    pub fn add_transparent(&mut self, poly: TransparentPoly) -> (r: Result<OracleId, Error>)
        requires
            old(self).wf(),
            poly@.wf(),
        ensures
            final(self).wf(),
            poly@.tower_level() > 7 ==> r == Err::<OracleId, Error>(
                Error::TowerLevelTooHigh { tower_level: poly@.tower_level() },
            ) && final(self)@ == old(self)@,
            poly@.tower_level() <= 7 ==> r == Ok::<OracleId, Error>(old(self)@.len() as usize)
                && final(self)@ == old(self)@.push(OracleModel::Transparent { poly: poly@ }),
    {
        let level = poly.binary_tower_level();
        if level > 7 {
            return Err(Error::TowerLevelTooHigh { tower_level: level });
        }
        let id = self.oracles.len();
        let m = MultilinearPolyOracle::Transparent { poly };
        proof {
            lemma_graph_wf_push(self@, m@);
            assert(self@.push(m@) =~= self.oracles@.push(m).map_values(
                |o: MultilinearPolyOracle| o@,
            ));
        }
        self.oracles.push(m);
        Ok(id)
    }

    /// Registers a repetition of an existing oracle; the repeated
    /// variable count must fit the machine word.
    pub fn add_repeating(&mut self, id: OracleId, log_count: usize) -> (r: Result<OracleId, Error>)
        requires
            old(self).wf(),
        ensures
            final(self).wf(),
            r is Ok <==> (id < old(self)@.len() && model_n_vars(old(self)@, id as int) + log_count
                <= usize::MAX),
            r is Ok ==> r == Ok::<OracleId, Error>(old(self)@.len() as usize) && final(self)@
                == old(self)@.push(OracleModel::Repeating { inner: id, log_count }),
            r is Err ==> final(self)@ == old(self)@,
            r matches Err(e) ==> (id >= old(self)@.len() ==> e == (Error::InvalidOracleId { id })),
            r matches Err(e) ==> (id < old(self)@.len() ==> e == (Error::TooManyVariables {
                n_vars: model_n_vars(old(self)@, id as int) as usize,
            })),
    {
        if id >= self.oracles.len() {
            return Err(Error::InvalidOracleId { id });
        }
        let inner_nv = self.n_vars(id);
        if log_count > usize::MAX - inner_nv {
            return Err(Error::TooManyVariables { n_vars: inner_nv });
        }
        let fresh = self.oracles.len();
        let m = MultilinearPolyOracle::Repeating { inner: id, log_count };
        proof {
            lemma_n_vars_push_stable(self@, m@, id as int);
            lemma_graph_wf_push(self@, m@);
            assert(self@.push(m@) =~= self.oracles@.push(m).map_values(
                |o: MultilinearPolyOracle| o@,
            ));
        }
        self.oracles.push(m);
        Ok(fresh)
    }

    /// Registers a shifted view of an existing oracle. The block size
    /// must not exceed the inner arity and the offset must be a nonzero
    /// element of the block.
    pub fn add_shifted(
        &mut self,
        id: OracleId,
        offset: usize,
        block_bits: usize,
        variant: ShiftVariant,
    ) -> (r: Result<OracleId, Error>)
        requires
            old(self).wf(),
        ensures
            final(self).wf(),
            r is Ok <==> (id < old(self)@.len() && block_bits <= model_n_vars(old(self)@, id as int)
                && 1 <= offset && (offset as nat) < pow2(block_bits as nat)),
            r is Ok ==> r == Ok::<OracleId, Error>(old(self)@.len() as usize) && final(self)@
                == old(self)@.push(
                OracleModel::Shifted {
                    inner: id,
                    shift_offset: offset,
                    block_size: block_bits,
                    variant,
                },
            ),
            r is Err ==> final(self)@ == old(self)@,
            r matches Err(e) ==> (id >= old(self)@.len() ==> e == (Error::InvalidOracleId { id })),
            r matches Err(e) ==> ((id < old(self)@.len() && block_bits > model_n_vars(
                old(self)@,
                id as int,
            )) ==> e == (Error::InvalidBlockSize {
                n_vars: model_n_vars(old(self)@, id as int) as usize,
            })),
            r matches Err(e) ==> ((id < old(self)@.len() && block_bits <= model_n_vars(
                old(self)@,
                id as int,
            )) ==> (e matches Error::InvalidShiftOffset { .. }
                && e->InvalidShiftOffset_shift_offset == offset)),
    {
        if id >= self.oracles.len() {
            return Err(Error::InvalidOracleId { id });
        }
        let inner_n_vars = self.n_vars(id);
        if block_bits > inner_n_vars {
            return Err(Error::InvalidBlockSize { n_vars: inner_n_vars });
        }
        // Decide `offset < 2^block_bits` without overflowing a shift.
        let offset_ok: bool;
        if offset == 0 {
            offset_ok = false;
        } else if block_bits >= 64 {
            proof {
                vstd::arithmetic::power2::lemma2_to64();
                vstd::arithmetic::power2::lemma2_to64_rest();
                if block_bits > 64 {
                    vstd::arithmetic::power2::lemma_pow2_strictly_increases(64, block_bits as nat);
                }
            }
            offset_ok = true;
        } else {
            let cap: u64 = 1u64 << (block_bits as u64);
            proof {
                lemma_u64_pow2_no_overflow(block_bits as nat);
                lemma_u64_shl_is_mul(1u64, block_bits as u64);
            }
            offset_ok = (offset as u64) < cap;
        }
        if !offset_ok {
            let max_off: usize = if block_bits >= 64 {
                usize::MAX
            } else {
                let cap: u64 = 1u64 << (block_bits as u64);
                proof {
                    lemma_u64_pow2_no_overflow(block_bits as nat);
                    lemma_u64_shl_is_mul(1u64, block_bits as u64);
                }
                if cap - 1 > (usize::MAX as u64) {
                    usize::MAX
                } else {
                    (cap - 1) as usize
                }
            };
            return Err(
                Error::InvalidShiftOffset { max_shift_offset: max_off, shift_offset: offset },
            );
        }
        let fresh = self.oracles.len();
        let m = MultilinearPolyOracle::Shifted {
            inner: id,
            shift_offset: offset,
            block_size: block_bits,
            variant,
        };
        proof {
            lemma_n_vars_push_stable(self@, m@, id as int);
            lemma_graph_wf_push(self@, m@);
            assert(self@.push(m@) =~= self.oracles@.push(m).map_values(
                |o: MultilinearPolyOracle| o@,
            ));
        }
        self.oracles.push(m);
        Ok(fresh)
    }

    /// Registers a packed view of an existing oracle; packing removes
    /// `log_degree` variables, which must be available.
    pub fn add_packed(&mut self, id: OracleId, log_degree: usize) -> (r: Result<OracleId, Error>)
        requires
            old(self).wf(),
        ensures
            final(self).wf(),
            r is Ok <==> (id < old(self)@.len() && log_degree <= model_n_vars(
                old(self)@,
                id as int,
            ) && model_tower_level(old(self)@, id as int) + log_degree <= usize::MAX),
            r is Ok ==> r == Ok::<OracleId, Error>(old(self)@.len() as usize) && final(self)@
                == old(self)@.push(OracleModel::Packed { inner: id, log_degree }),
            r is Err ==> final(self)@ == old(self)@,
            r matches Err(e) ==> (id >= old(self)@.len() ==> e == (Error::InvalidOracleId { id })),
            r matches Err(e) ==> ((id < old(self)@.len() && log_degree > model_n_vars(
                old(self)@,
                id as int,
            )) ==> e == (Error::NotEnoughVarsForPacking {
                n_vars: model_n_vars(old(self)@, id as int) as usize,
                log_degree,
            })),
            r matches Err(e) ==> ((id < old(self)@.len() && log_degree <= model_n_vars(
                old(self)@,
                id as int,
            )) ==> e == (Error::TowerLevelTooHigh { tower_level: usize::MAX })),
    {
        if id >= self.oracles.len() {
            return Err(Error::InvalidOracleId { id });
        }
        let inner_n_vars = self.n_vars(id);
        if log_degree > inner_n_vars {
            return Err(Error::NotEnoughVarsForPacking { n_vars: inner_n_vars, log_degree });
        }
        let lvl = self.tower_level(id);
        if log_degree > usize::MAX - lvl {
            return Err(Error::TowerLevelTooHigh { tower_level: usize::MAX });
        }
        let fresh = self.oracles.len();
        let m = MultilinearPolyOracle::Packed { inner: id, log_degree };
        proof {
            lemma_n_vars_push_stable(self@, m@, id as int);
            lemma_tower_level_push_stable(self@, m@, id as int);
            lemma_graph_wf_push(self@, m@);
            assert(self@.push(m@) =~= self.oracles@.push(m).map_values(
                |o: MultilinearPolyOracle| o@,
            ));
        }
        self.oracles.push(m);
        Ok(fresh)
    }

    /// Registers a projection of an existing oracle onto fewer
    /// variables; at most the inner arity may be fixed.
    pub fn add_projected(
        &mut self,
        id: OracleId,
        values: Vec<u128>,
        variant: ProjectionVariant,
    ) -> (r: Result<OracleId, Error>)
        requires
            old(self).wf(),
        ensures
            final(self).wf(),
            r is Ok <==> (id < old(self)@.len() && values@.len() <= model_n_vars(
                old(self)@,
                id as int,
            )),
            r is Ok ==> r == Ok::<OracleId, Error>(old(self)@.len() as usize) && final(self)@
                == old(self)@.push(OracleModel::Projected { inner: id, values: values@, variant }),
            r is Err ==> final(self)@ == old(self)@,
            r matches Err(e) ==> (id >= old(self)@.len() ==> e == (Error::InvalidOracleId { id })),
            r matches Err(e) ==> (id < old(self)@.len() ==> e == (Error::InvalidProjection {
                n_vars: model_n_vars(old(self)@, id as int) as usize,
                values_len: values@.len() as usize,
            })),
    {
        if id >= self.oracles.len() {
            return Err(Error::InvalidOracleId { id });
        }
        let inner_n_vars = self.n_vars(id);
        if values.len() > inner_n_vars {
            return Err(
                Error::InvalidProjection { n_vars: inner_n_vars, values_len: values.len() },
            );
        }
        let fresh = self.oracles.len();
        let m = MultilinearPolyOracle::Projected { inner: id, values, variant };
        proof {
            lemma_n_vars_push_stable(self@, m@, id as int);
            lemma_graph_wf_push(self@, m@);
            assert(self@.push(m@) =~= self.oracles@.push(m).map_values(
                |o: MultilinearPolyOracle| o@,
            ));
        }
        self.oracles.push(m);
        Ok(fresh)
    }

    /// Registers a linear combination of same-arity oracles with a zero
    /// offset.
    pub fn add_linear_combination(&mut self, n_vars: usize, terms: Vec<(OracleId, u128)>) -> (r:
        Result<OracleId, Error>)
        requires
            old(self).wf(),
        ensures
            final(self).wf(),
            match spec_lc_check(old(self)@, terms@, n_vars, 0) {
                Ok(_) => r == Ok::<OracleId, Error>(old(self)@.len() as usize) && final(self)@
                    == old(self)@.push(
                    OracleModel::LinearCombination { n_vars, offset: 0u128, terms: terms@ },
                ),
                Err(e) => r == Err::<OracleId, Error>(e) && final(self)@ == old(self)@,
            },
    {
        self.add_linear_combination_with_offset(n_vars, 0, terms)
    }

    /// Registers a linear combination of same-arity oracles with an
    /// additive offset. Every term must reference a registered oracle of
    /// exactly `n_vars` variables.
    pub fn add_linear_combination_with_offset(
        &mut self,
        n_vars: usize,
        offset: u128,
        terms: Vec<(OracleId, u128)>,
    ) -> (r: Result<OracleId, Error>)
        requires
            old(self).wf(),
        ensures
            final(self).wf(),
            match spec_lc_check(old(self)@, terms@, n_vars, 0) {
                Ok(_) => r == Ok::<OracleId, Error>(old(self)@.len() as usize) && final(self)@
                    == old(self)@.push(
                    OracleModel::LinearCombination { n_vars, offset, terms: terms@ },
                ),
                Err(e) => r == Err::<OracleId, Error>(e) && final(self)@ == old(self)@,
            },
    {
        let ghost s = self@;
        let mut i: usize = 0;
        while i < terms.len()
            invariant
                i <= terms@.len(),
                s == self@,
                self.wf(),
                spec_lc_check(s, terms@, n_vars, 0) == spec_lc_check(s, terms@, n_vars, i as int),
                forall|j: int| 0 <= j < i ==> (#[trigger] terms@[j]).0 < s.len() && model_n_vars(
                    s,
                    terms@[j].0 as int,
                ) == n_vars,
            decreases terms@.len() - i,
        {
            let (inner, _c) = terms[i];
            if inner >= self.oracles.len() {
                return Err(Error::InvalidOracleId { id: inner });
            }
            let nv = self.n_vars(inner);
            if nv != n_vars {
                return Err(Error::IncorrectNumberOfVariables { expected: n_vars });
            }
            i = i + 1;
        }
        let fresh = self.oracles.len();
        let m = MultilinearPolyOracle::LinearCombination { n_vars, offset, terms };
        proof {
            assert forall|j: int|
                0 <= j < m@->LinearCombination_terms.len() implies (#[trigger] m@->LinearCombination_terms[j]).0
                < s.len() && model_n_vars(s.push(m@), m@->LinearCombination_terms[j].0 as int)
                == n_vars by {
                lemma_n_vars_push_stable(s, m@, m@->LinearCombination_terms[j].0 as int);
            }
            lemma_graph_wf_push(self@, m@);
            assert(self@.push(m@) =~= self.oracles@.push(m).map_values(
                |o: MultilinearPolyOracle| o@,
            ));
        }
        self.oracles.push(m);
        Ok(fresh)
    }

    /// Registers a zero-padded extension of an existing oracle to a
    /// hypercube of at least the inner arity.
    pub fn add_zero_padded(&mut self, id: OracleId, n_vars: usize) -> (r: Result<OracleId, Error>)
        requires
            old(self).wf(),
        ensures
            final(self).wf(),
            r is Ok <==> (id < old(self)@.len() && model_n_vars(old(self)@, id as int) <= n_vars),
            r is Ok ==> r == Ok::<OracleId, Error>(old(self)@.len() as usize) && final(self)@
                == old(self)@.push(OracleModel::ZeroPadded { inner: id, n_vars }),
            r is Err ==> final(self)@ == old(self)@,
            r matches Err(e) ==> (id >= old(self)@.len() ==> e == (Error::InvalidOracleId { id })),
            r matches Err(e) ==> (id < old(self)@.len() ==> e == (Error::IncorrectNumberOfVariables {
                expected: model_n_vars(old(self)@, id as int) as usize,
            })),
    {
        if id >= self.oracles.len() {
            return Err(Error::InvalidOracleId { id });
        }
        let inner_n_vars = self.n_vars(id);
        if inner_n_vars > n_vars {
            return Err(Error::IncorrectNumberOfVariables { expected: inner_n_vars });
        }
        let fresh = self.oracles.len();
        let m = MultilinearPolyOracle::ZeroPadded { inner: id, n_vars };
        proof {
            lemma_n_vars_push_stable(self@, m@, id as int);
            lemma_graph_wf_push(self@, m@);
            assert(self@.push(m@) =~= self.oracles@.push(m).map_values(
                |o: MultilinearPolyOracle| o@,
            ));
        }
        self.oracles.push(m);
        Ok(fresh)
    }

    /// The number of committed batches: each committed oracle forms one
    /// batch, in registration order.
    pub fn n_batches(&self) -> (r: usize)
        ensures
            r == spec_n_batches(self@, self@.len() as int),
    {
        let mut count: usize = 0;
        let mut i: usize = 0;
        while i < self.oracles.len()
            invariant
                i <= self@.len(),
                count == spec_n_batches(self@, i as int),
                count <= i,
            decreases self@.len() - i,
        {
            match &self.oracles[i] {
                MultilinearPolyOracle::Committed { .. } => {
                    count = count + 1;
                },
                _ => {},
            }
            i = i + 1;
        }
        count
    }

    /// Whether the whole graph is well-formed: an executable mirror of
    /// `graph_wf` for a graph received whole rather than grown through
    /// the registering constructors.
    #[verifier::loop_isolation(false)]
    pub fn check_wf(&self) -> (r: bool)
        ensures
            r == graph_wf(self@),
    {
        let n = self.oracles.len();
        let mut nv: Vec<usize> = Vec::new();
        let mut tl: Vec<usize> = Vec::new();
        let mut i: usize = 0;
        while i < n
            invariant
                i <= n,
                nv@.len() == i,
                tl@.len() == i,
                forall|k: int| 0 <= k < i ==> oracle_ok(self@, k),
                forall|k: int|
                    0 <= k < i ==> (#[trigger] nv@[k]) as int == model_n_vars(self@, k),
                forall|k: int|
                    0 <= k < i ==> (#[trigger] tl@[k]) as int == model_tower_level(self@, k),
            decreases n - i,
        {
            proof {
                assert(self@[i as int] == self.oracles@[i as int]@);
            }
            let my_nv: usize;
            let my_tl: usize;
            match &self.oracles[i] {
                MultilinearPolyOracle::Transparent { poly } => {
                    let shape_ok: bool = match poly {
                        TransparentPoly::Constant(_) => true,
                        TransparentPoly::StepDown { n_vars, index } => {
                            if *n_vars >= 64 {
                                proof {
                                    vstd::arithmetic::power2::lemma2_to64();
                                    vstd::arithmetic::power2::lemma2_to64_rest();
                                    if *n_vars > 64 {
                                        vstd::arithmetic::power2::lemma_pow2_strictly_increases(
                                            64,
                                            *n_vars as nat,
                                        );
                                    }
                                }
                                true
                            } else {
                                let cap: u64 = 1u64 << (*n_vars as u64);
                                proof {
                                    lemma_u64_pow2_no_overflow(*n_vars as nat);
                                    lemma_u64_shl_is_mul(1u64, *n_vars as u64);
                                }
                                (*index as u64) <= cap
                            }
                        },
                        TransparentPoly::EqInd { n_vars, point } => point.len() == *n_vars,
                    };
                    if !shape_ok || poly.binary_tower_level() > 7 {
                        proof {
                            assert(!oracle_ok(self@, i as int));
                        }
                        return false;
                    }
                    my_nv = poly.n_vars();
                    my_tl = poly.binary_tower_level();
                },
                MultilinearPolyOracle::Committed { n_vars, tower_level } => {
                    my_nv = *n_vars;
                    my_tl = *tower_level;
                },
                MultilinearPolyOracle::Repeating { inner, log_count } => {
                    if *inner >= i || *log_count > usize::MAX - nv[*inner] {
                        proof {
                            assert(!oracle_ok(self@, i as int));
                        }
                        return false;
                    }
                    my_nv = nv[*inner] + *log_count;
                    my_tl = tl[*inner];
                },
                MultilinearPolyOracle::Projected { inner, values, .. } => {
                    if *inner >= i || values.len() > nv[*inner] {
                        proof {
                            assert(!oracle_ok(self@, i as int));
                        }
                        return false;
                    }
                    my_nv = nv[*inner] - values.len();
                    my_tl = tl[*inner];
                },
                MultilinearPolyOracle::Shifted { inner, shift_offset, block_size, .. } => {
                    if *inner >= i || *block_size > nv[*inner] {
                        proof {
                            assert(!oracle_ok(self@, i as int));
                        }
                        return false;
                    }
                    let offset_ok: bool;
                    if *shift_offset == 0 {
                        offset_ok = false;
                    } else if *block_size >= 64 {
                        proof {
                            vstd::arithmetic::power2::lemma2_to64();
                            vstd::arithmetic::power2::lemma2_to64_rest();
                            if *block_size > 64 {
                                vstd::arithmetic::power2::lemma_pow2_strictly_increases(
                                    64,
                                    *block_size as nat,
                                );
                            }
                        }
                        offset_ok = true;
                    } else {
                        let cap: u64 = 1u64 << (*block_size as u64);
                        proof {
                            lemma_u64_pow2_no_overflow(*block_size as nat);
                            lemma_u64_shl_is_mul(1u64, *block_size as u64);
                        }
                        offset_ok = (*shift_offset as u64) < cap;
                    }
                    if !offset_ok {
                        proof {
                            assert(!oracle_ok(self@, i as int));
                        }
                        return false;
                    }
                    my_nv = nv[*inner];
                    my_tl = tl[*inner];
                },
                MultilinearPolyOracle::Packed { inner, log_degree } => {
                    if *inner >= i || *log_degree > nv[*inner] || *log_degree > usize::MAX
                        - tl[*inner] {
                        proof {
                            assert(!oracle_ok(self@, i as int));
                        }
                        return false;
                    }
                    my_nv = nv[*inner] - *log_degree;
                    my_tl = tl[*inner] + *log_degree;
                },
                MultilinearPolyOracle::LinearCombination { n_vars, terms, .. } => {
                    let ghost tm = self@[i as int]->LinearCombination_terms;
                    proof {
                        assert(tm == terms@);
                    }
                    let mut acc: usize = 0;
                    let mut j: usize = 0;
                    proof {
                        lemma_lc_max_nonneg(self@, tm, 0, i as int);
                    }
                    while j < terms.len()
                        invariant
                            j <= terms@.len(),
                            forall|q: int|
                                0 <= q < j ==> (#[trigger] tm[q]).0 < i && model_n_vars(
                                    self@,
                                    tm[q].0 as int,
                                ) == *n_vars,
                            vstd::math::max(
                                acc as int,
                                lc_max_level(self@, tm, j as int, i as int),
                            ) == lc_max_level(self@, tm, 0, i as int),
                        decreases terms@.len() - j,
                    {
                        let (t_id, _c) = terms[j];
                        if t_id >= i {
                            proof {
                                assert(!oracle_ok(self@, i as int));
                            }
                            return false;
                        }
                        if nv[t_id] != *n_vars {
                            proof {
                                assert(!oracle_ok(self@, i as int));
                            }
                            return false;
                        }
                        let l = tl[t_id];
                        if l > acc {
                            acc = l;
                        }
                        j = j + 1;
                    }
                    my_nv = *n_vars;
                    my_tl = acc;
                },
                MultilinearPolyOracle::ZeroPadded { inner, n_vars } => {
                    if *inner >= i || nv[*inner] > *n_vars {
                        proof {
                            assert(!oracle_ok(self@, i as int));
                        }
                        return false;
                    }
                    my_nv = *n_vars;
                    my_tl = tl[*inner];
                },
            }
            proof {
                assert(oracle_ok(self@, i as int));
                assert(my_nv as int == model_n_vars(self@, i as int));
                assert(my_tl as int == model_tower_level(self@, i as int));
            }
            nv.push(my_nv);
            tl.push(my_tl);
            i = i + 1;
        }
        true
    }
}

/// The number of committed oracles among the first `up_to` descriptors.
pub open spec fn spec_n_batches(s: Seq<OracleModel>, up_to: int) -> int
    decreases up_to,
{
    if up_to <= 0 || up_to > s.len() {
        0
    } else {
        spec_n_batches(s, up_to - 1) + (if s[up_to - 1] is Committed {
            1int
        } else {
            0int
        })
    }
}

/// The first violation, in order, among a linear combination's terms:
/// an unregistered oracle or one of the wrong arity.
pub open spec fn spec_lc_check(
    s: Seq<OracleModel>,
    terms: Seq<(usize, u128)>,
    n_vars: usize,
    i: int,
) -> Result<(), Error>
    decreases terms.len() - i,
{
    if i < 0 || i >= terms.len() {
        Ok(())
    } else {
        let (inner, _c) = terms[i];
        if inner >= s.len() {
            Err(Error::InvalidOracleId { id: inner })
        } else if model_n_vars(s, inner as int) != n_vars {
            Err(Error::IncorrectNumberOfVariables { expected: n_vars })
        } else {
            spec_lc_check(s, terms, n_vars, i + 1)
        }
    }
}

/// The variable count is within machine bounds on a well-formed graph.
pub proof fn lemma_model_n_vars_bounds(s: Seq<OracleModel>, id: int)
    requires
        graph_wf(s),
        0 <= id < s.len(),
    ensures
        0 <= model_n_vars(s, id) <= usize::MAX,
    decreases id,
{
    assert(oracle_ok(s, id));
    match s[id] {
        OracleModel::Repeating { inner, .. } => {
            lemma_model_n_vars_bounds(s, inner as int);
        },
        OracleModel::Projected { inner, .. } => {
            lemma_model_n_vars_bounds(s, inner as int);
        },
        OracleModel::Shifted { inner, .. } => {
            lemma_model_n_vars_bounds(s, inner as int);
        },
        OracleModel::Packed { inner, .. } => {
            lemma_model_n_vars_bounds(s, inner as int);
        },
        _ => {},
    }
}

/// The tower level of any oracle on a well-formed graph fits the
/// machine word.
pub proof fn lemma_model_tower_level_bounds(s: Seq<OracleModel>, id: int)
    requires
        graph_wf(s),
        0 <= id < s.len(),
    ensures
        0 <= model_tower_level(s, id) <= usize::MAX,
    decreases id, 1int, 0int,
{
    assert(oracle_ok(s, id));
    match s[id] {
        OracleModel::Repeating { inner, .. } => {
            lemma_model_tower_level_bounds(s, inner as int);
        },
        OracleModel::Projected { inner, .. } => {
            lemma_model_tower_level_bounds(s, inner as int);
        },
        OracleModel::Shifted { inner, .. } => {
            lemma_model_tower_level_bounds(s, inner as int);
        },
        OracleModel::Packed { inner, log_degree } => {
            lemma_model_tower_level_bounds(s, inner as int);
            assert(log_degree <= model_n_vars(s, inner as int));
            lemma_model_n_vars_bounds(s, inner as int);
        },
        OracleModel::LinearCombination { terms, .. } => {
            lemma_lc_max_level_bounds(s, terms, 0, id);
        },
        OracleModel::ZeroPadded { inner, .. } => {
            lemma_model_tower_level_bounds(s, inner as int);
        },
        _ => {},
    }
}

/// The bound of `lemma_model_tower_level_bounds` for the maximum over a
/// linear combination's terms.
pub proof fn lemma_lc_max_level_bounds(
    s: Seq<OracleModel>,
    terms: Seq<(usize, u128)>,
    i: int,
    id: int,
)
    requires
        graph_wf(s),
        0 <= id < s.len(),
    ensures
        0 <= lc_max_level(s, terms, i, id) <= usize::MAX,
    decreases id, 0int, terms.len() - i,
{
    if 0 <= i < terms.len() {
        let inner = terms[i].0 as int;
        if 0 <= inner < id {
            lemma_model_tower_level_bounds(s, inner);
        }
        lemma_lc_max_level_bounds(s, terms, i + 1, id);
    }
}

/// A copy of a vector of field values.
fn copy_u128s(v: &Vec<u128>) -> (r: Vec<u128>)
    ensures
        r@ == v@,
{
    let mut out: Vec<u128> = Vec::new();
    let mut i: usize = 0;
    while i < v.len()
        invariant
            i <= v@.len(),
            out@ == v@.take(i as int),
        decreases v@.len() - i,
    {
        out.push(v[i]);
        proof {
            assert(out@ == v@.take(i as int + 1));
        }
        i = i + 1;
    }
    proof {
        assert(v@.take(v@.len() as int) == v@);
    }
    out
}

/// A copy of a vector of linear-combination terms.
fn copy_terms(v: &Vec<(OracleId, u128)>) -> (r: Vec<(OracleId, u128)>)
    ensures
        r@ == v@,
{
    let mut out: Vec<(OracleId, u128)> = Vec::new();
    let mut i: usize = 0;
    while i < v.len()
        invariant
            i <= v@.len(),
            out@ == v@.take(i as int),
        decreases v@.len() - i,
    {
        let (a, b) = v[i];
        out.push((a, b));
        proof {
            assert(out@ == v@.take(i as int + 1));
        }
        i = i + 1;
    }
    proof {
        assert(v@.take(v@.len() as int) == v@);
    }
    out
}

} // verus!
