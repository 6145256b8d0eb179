//! Per-table polynomial constraints and their grouping.
//!
//! A constraint couples a symbolic composition over local column indices
//! with a predicate on the hypercube: the composition sums to a target,
//! or vanishes everywhere. The builder collects constraints and emits
//! constraint sets whose oracles share one variable count, remapping
//! each constraint's local indices onto the set's sorted, deduplicated
//! oracle list.
use vstd::prelude::*;

use crate::arith::ArithExpr;
use crate::error::Error;
use crate::oracle::{MultilinearOracleSet, MultilinearPolyOracle, OracleId, model_n_vars};

verus! {

/// What a constraint asserts of its composition over the hypercube.
#[derive(Debug, Clone, Copy, PartialEq, Eq, Structural)]
pub enum ConstraintPredicate {
    /// The composition sums to the value over the hypercube.
    Sum(u128),
    /// The composition vanishes everywhere on the hypercube.
    Zero,
}

/// The mathematical value of a constraint.
pub ghost struct ConstraintModel {
    pub name: Seq<u8>,
    pub composition: ArithExpr<7>,
    pub predicate: ConstraintPredicate,
}

/// A named constraint: a composition over local column indices and the
/// predicate it must satisfy.
#[derive(Debug)]
pub struct Constraint {
    pub name: Vec<u8>,
    pub composition: ArithExpr<7>,
    pub predicate: ConstraintPredicate,
}

impl View for Constraint {
    type V = ConstraintModel;

    open spec fn view(&self) -> ConstraintModel {
        ConstraintModel {
            name: self.name@,
            composition: self.composition,
            predicate: self.predicate,
        }
    }
}

/// The mathematical value of a constraint set.
pub ghost struct ConstraintSetModel {
    pub n_vars: usize,
    pub oracle_ids: Seq<usize>,
    pub constraints: Seq<ConstraintModel>,
}

/// A group of constraints over one sorted, deduplicated oracle list,
/// all of whose oracles share one variable count.
#[derive(Debug)]
pub struct ConstraintSet {
    pub n_vars: usize,
    pub oracle_ids: Vec<OracleId>,
    pub constraints: Vec<Constraint>,
}

impl View for ConstraintSet {
    type V = ConstraintSetModel;

    open spec fn view(&self) -> ConstraintSetModel {
        ConstraintSetModel {
            n_vars: self.n_vars,
            oracle_ids: self.oracle_ids@,
            constraints: self.constraints@.map_values(|c: Constraint| c@),
        }
    }
}

/// The mathematical value of a pending constraint.
pub ghost struct UngroupedModel {
    pub name: Seq<u8>,
    pub oracle_ids: Seq<usize>,
    pub composition: ArithExpr<7>,
    pub predicate: ConstraintPredicate,
}

/// A constraint waiting for its oracle superset to be known.
#[derive(Debug)]
struct UngroupedConstraint {
    name: Vec<u8>,
    oracle_ids: Vec<OracleId>,
    composition: ArithExpr<7>,
    predicate: ConstraintPredicate,
}

impl View for UngroupedConstraint {
    type V = UngroupedModel;

    closed spec fn view(&self) -> UngroupedModel {
        UngroupedModel {
            name: self.name@,
            oracle_ids: self.oracle_ids@,
            composition: self.composition,
            predicate: self.predicate,
        }
    }
}

/// Accumulates constraints and instantiates their index remappings once
/// the superset of referenced oracles is known.
#[derive(Debug)]
pub struct ConstraintSetBuilder {
    constraints: Vec<UngroupedConstraint>,
}

impl View for ConstraintSetBuilder {
    type V = Seq<UngroupedModel>;

    closed spec fn view(&self) -> Seq<UngroupedModel> {
        self.constraints@.map_values(|c: UngroupedConstraint| c@)
    }
}

impl Constraint {
    /// An equal copy of the constraint.
    pub fn duplicate(&self) -> (r: Constraint)
        ensures
            r@ == self@,
    {
        Constraint {
            name: copy_bytes(&self.name),
            composition: self.composition.duplicate(),
            predicate: self.predicate,
        }
    }
}

impl ConstraintSet {
    /// An equal copy of the constraint set.
    pub fn duplicate(&self) -> (r: ConstraintSet)
        ensures
            r@ == self@,
    {
        let mut constraints: Vec<Constraint> = Vec::new();
        let mut i: usize = 0;
        while i < self.constraints.len()
            invariant
                i <= self.constraints@.len(),
                constraints@.len() == i,
                forall|k: int|
                    0 <= k < i ==> ((#[trigger] constraints@[k])@) == (self.constraints@[k])@,
            decreases self.constraints@.len() - i,
        {
            constraints.push(self.constraints[i].duplicate());
            i = i + 1;
        }
        let r = ConstraintSet {
            n_vars: self.n_vars,
            oracle_ids: copy_usizes(&self.oracle_ids),
            constraints,
        };
        proof {
            assert(r@.constraints =~= self@.constraints);
        }
        r
    }
}

/// A copy of a byte string.
fn copy_bytes(v: &Vec<u8>) -> (r: Vec<u8>)
    ensures
        r@ == v@,
{
    let mut out: Vec<u8> = Vec::new();
    let mut i: usize = 0;
    while i < v.len()
        invariant
            i <= v@.len(),
            out@ == v@.take(i as int),
        decreases v@.len() - i,
    {
        out.push(v[i]);
        proof {
            assert(out@ == v@.take(i as int + 1));
        }
        i = i + 1;
    }
    proof {
        assert(v@.take(v@.len() as int) == v@);
    }
    out
}

/// A copy of a list of handles.
fn copy_usizes(v: &Vec<usize>) -> (r: Vec<usize>)
    ensures
        r@ == v@,
{
    let mut out: Vec<usize> = Vec::new();
    let mut i: usize = 0;
    while i < v.len()
        invariant
            i <= v@.len(),
            out@ == v@.take(i as int),
        decreases v@.len() - i,
    {
        out.push(v[i]);
        proof {
            assert(out@ == v@.take(i as int + 1));
        }
        i = i + 1;
    }
    proof {
        assert(v@.take(v@.len() as int) == v@);
    }
    out
}

/// The position of each subset element within the superset; the first
/// match is used, and `None` when some element does not occur.
pub open spec fn spec_positions(subset: Seq<usize>, superset: Seq<usize>) -> Option<Seq<usize>>
    decreases subset.len(),
{
    if subset.len() == 0 {
        Some(Seq::<usize>::empty())
    } else {
        let p = spec_index_of(superset, subset[0], 0);
        if p < 0 {
            None
        } else {
            match spec_positions(subset.skip(1), superset) {
                Some(rest) => Some(seq![p as usize] + rest),
                None => None,
            }
        }
    }
}

/// The first position of `x` at or after `i`, or `-1`.
pub open spec fn spec_index_of(s: Seq<usize>, x: usize, i: int) -> int
    decreases s.len() - i,
{
    if i < 0 || i >= s.len() {
        -1
    } else if s[i] == x {
        i
    } else {
        spec_index_of(s, x, i + 1)
    }
}

/// Find the index of every subset element within the superset. If the
/// superset contains duplicates the first match is used; `None` when
/// the subset holds an element the superset lacks.
#[verifier::loop_isolation(false)]
pub fn positions(subset: &Vec<OracleId>, superset: &Vec<OracleId>) -> (r: Option<Vec<usize>>)
    ensures
        match spec_positions(subset@, superset@) {
            Some(ps) => r matches Some(v) && v@ == ps,
            None => r is None,
        },
{
    let sup_len = superset.len();
    proof {
        assert(superset@.len() == sup_len);
        lemma_positions_char(subset@, superset@);
    }
    let mut out: Vec<usize> = Vec::new();
    let mut i: usize = 0;
    while i < subset.len()
        invariant
            i <= subset@.len(),
            out@.len() == i,
            forall|k: int|
                0 <= k < i ==> spec_index_of(superset@, #[trigger] subset@[k], 0) >= 0 && out@[k]
                    == spec_index_of(superset@, subset@[k], 0),
        decreases subset@.len() - i,
    {
        let x = subset[i];
        let p = index_of(superset, x);
        match p {
            Some(pos) => {
                out.push(pos);
                proof {
                    assert(out@[i as int] == pos);
                    assert(spec_index_of(superset@, subset@[i as int], 0) == pos);
                }
            },
            None => {
                proof {
                    assert(spec_index_of(superset@, subset@[i as int], 0) < 0);
                    assert(spec_positions(subset@, superset@) is None);
                }
                return None;
            },
        }
        i = i + 1;
    }
    proof {
        assert(forall|k: int|
            0 <= k < subset@.len() ==> spec_index_of(superset@, #[trigger] subset@[k], 0) >= 0);
        assert(spec_positions(subset@, superset@) is Some);
        let full = spec_positions(subset@, superset@)->Some_0;
        assert forall|k: int| 0 <= k < out@.len() implies out@[k] == full[k] by {
            assert(out@[k] == spec_index_of(superset@, subset@[k], 0));
            assert(full[k] == spec_index_of(superset@, subset@[k], 0));
        }
        assert(out@ =~= full);
    }
    Some(out)
}

/// The characterisation of `spec_positions`: it succeeds exactly when
/// every subset element occurs, and then returns the first position of
/// each.
pub proof fn lemma_positions_char(subset: Seq<usize>, superset: Seq<usize>)
    requires
        superset.len() <= usize::MAX,
    ensures
        spec_positions(subset, superset) is Some <==> (forall|k: int|
            0 <= k < subset.len() ==> spec_index_of(superset, #[trigger] subset[k], 0) >= 0),
        spec_positions(subset, superset) matches Some(full) ==> (full.len() == subset.len()
            && forall|k: int|
            0 <= k < subset.len() ==> full[k] == spec_index_of(superset, #[trigger] subset[k], 0)),
    decreases subset.len(),
{
    if subset.len() > 0 {
        lemma_positions_char(subset.skip(1), superset);
        assert forall|k: int| 0 <= k < subset.skip(1).len() implies subset.skip(1)[k] == subset[k
            + 1] by {}
        if spec_positions(subset, superset) is Some {
            let full = spec_positions(subset, superset)->Some_0;
            let rest = spec_positions(subset.skip(1), superset)->Some_0;
            let p = spec_index_of(superset, subset[0], 0);
            assert(p >= 0);
            lemma_index_of_range(superset, subset[0], 0);
            assert(spec_positions(subset.skip(1), superset) is Some);
            assert(full == seq![p as usize] + rest);
            assert forall|k: int|
                0 <= k < subset.len() implies full[k] == spec_index_of(
                superset,
                #[trigger] subset[k],
                0,
            ) by {
                if k == 0 {
                    assert(full[0] == (seq![p as usize] + rest)[0]);
                    assert(full[0] == p as usize);
                } else {
                    assert(full[k] == (seq![p as usize] + rest)[k]);
                    assert(full[k] == rest[k - 1]);
                    assert(subset.skip(1)[k - 1] == subset[k]);
                    assert(rest[k - 1] == spec_index_of(superset, subset.skip(1)[k - 1], 0));
                }
            }
        }
        if forall|k: int|
            0 <= k < subset.len() ==> spec_index_of(superset, #[trigger] subset[k], 0) >= 0 {
            assert(subset[0] == subset[0]);
            assert forall|k: int|
                0 <= k < subset.skip(1).len() implies spec_index_of(
                superset,
                #[trigger] subset.skip(1)[k],
                0,
            ) >= 0 by {
                assert(subset.skip(1)[k] == subset[k + 1]);
            }
        }
    }
}

/// A successful search lands inside the sequence.
pub proof fn lemma_index_of_range(s: Seq<usize>, x: usize, i: int)
    requires
        spec_index_of(s, x, i) >= 0,
    ensures
        i <= spec_index_of(s, x, i) < s.len(),
        s[spec_index_of(s, x, i)] == x,
    decreases s.len() - i,
{
    if !(i < 0 || i >= s.len()) && s[i] != x {
        lemma_index_of_range(s, x, i + 1);
    }
}

/// The first position of `x` in the vector, if any.
fn index_of(s: &Vec<usize>, x: usize) -> (r: Option<usize>)
    ensures
        match r {
            Some(p) => spec_index_of(s@, x, 0) == p,
            None => spec_index_of(s@, x, 0) == -1,
        },
{
    let mut i: usize = 0;
    while i < s.len()
        invariant
            i <= s@.len(),
            spec_index_of(s@, x, 0) == spec_index_of(s@, x, i as int),
        decreases s@.len() - i,
    {
        if s[i] == x {
            return Some(i);
        }
        i = i + 1;
    }
    None
}

/// The ASCII bytes of the generic sumcheck constraint name.
pub open spec fn sumcheck_name() -> Seq<u8> {
    seq![115u8, 117u8, 109u8, 99u8, 104u8, 101u8, 99u8, 107u8]
}

/// Whether the sequence is strictly increasing.
pub open spec fn strictly_sorted(s: Seq<usize>) -> bool {
    forall|i: int, j: int| 0 <= i < j < s.len() ==> s[i] < s[j]
}

/// A contained element is found by the search.
pub proof fn lemma_index_of_contains(s: Seq<usize>, x: usize, i: int)
    requires
        0 <= i < s.len(),
        s[i] == x,
    ensures
        spec_index_of(s, x, 0) >= 0,
{
    lemma_index_of_contains_from(s, x, 0, i);
}

/// A contained element at or after `j` is found from `j` on.
proof fn lemma_index_of_contains_from(s: Seq<usize>, x: usize, j: int, i: int)
    requires
        0 <= j <= i < s.len(),
        s[i] == x,
    ensures
        spec_index_of(s, x, j) >= 0,
    decreases i - j,
{
    if s[j] != x {
        lemma_index_of_contains_from(s, x, j + 1, i);
    }
}

/// Remapping succeeds exactly when the index list covers every variable
/// of the expression.
pub proof fn lemma_remap_ok_iff(e: ArithExpr<7>, idx: Seq<usize>)
    ensures
        e.spec_remap(idx) is Ok <==> e.spec_n_vars() <= idx.len(),
    decreases e,
{
    match e {
        ArithExpr::Const(_) => {},
        ArithExpr::Var(_) => {},
        ArithExpr::Add(l, r) => {
            lemma_remap_ok_iff(*l, idx);
            lemma_remap_ok_iff(*r, idx);
        },
        ArithExpr::Mul(l, r) => {
            lemma_remap_ok_iff(*l, idx);
            lemma_remap_ok_iff(*r, idx);
        },
        ArithExpr::Pow(b, _) => {
            lemma_remap_ok_iff(*b, idx);
        },
    }
}

/// The concatenation of every pending constraint's oracle list.
pub open spec fn all_ids(cs: Seq<UngroupedModel>, i: int) -> Seq<usize>
    decreases cs.len() - i,
{
    if i < 0 || i >= cs.len() {
        Seq::<usize>::empty()
    } else {
        cs[i].oracle_ids + all_ids(cs, i + 1)
    }
}

/// Every oracle of every pending constraint occurs in the
/// concatenation.
pub proof fn lemma_all_ids_contains(cs: Seq<UngroupedModel>, k: int, j: int)
    requires
        0 <= k < cs.len(),
        0 <= j < cs[k].oracle_ids.len(),
    ensures
        all_ids(cs, 0).contains(cs[k].oracle_ids[j]),
{
    lemma_all_ids_contains_from(cs, 0, k, j);
}

/// The suffix concatenation from `i` holds constraint `k`'s oracles.
proof fn lemma_all_ids_contains_from(cs: Seq<UngroupedModel>, i: int, k: int, j: int)
    requires
        0 <= i <= k < cs.len(),
        0 <= j < cs[k].oracle_ids.len(),
    ensures
        all_ids(cs, i).contains(cs[k].oracle_ids[j]),
    decreases k - i,
{
    if i == k {
        assert(all_ids(cs, i)[j] == cs[k].oracle_ids[j]);
    } else {
        lemma_all_ids_contains_from(cs, i + 1, k, j);
        let x = cs[k].oracle_ids[j];
        let idx = choose|idx: int|
            0 <= idx < all_ids(cs, i + 1).len() && #[trigger] all_ids(cs, i + 1)[idx] == x;
        assert(all_ids(cs, i)[cs[i].oracle_ids.len() + idx] == x);
    }
}

/// Whether the vector holds the value.
fn contains_id(v: &Vec<usize>, x: usize) -> (r: bool)
    ensures
        r == v@.contains(x),
{
    let mut i: usize = 0;
    while i < v.len()
        invariant
            i <= v@.len(),
            forall|j: int| 0 <= j < i ==> v@[j] != x,
        decreases v@.len() - i,
    {
        if v[i] == x {
            return true;
        }
        i = i + 1;
    }
    false
}

impl ConstraintSetBuilder {
    /// An empty builder.
    pub fn new() -> (r: Self)
        ensures
            r@ == Seq::<UngroupedModel>::empty(),
    {
        let r = ConstraintSetBuilder { constraints: Vec::new() };
        proof {
            assert(r@ =~= Seq::<UngroupedModel>::empty());
        }
        r
    }

    /// Adds a constraint whose composition must sum to `sum` over the
    /// hypercube.
    pub fn add_sumcheck(&mut self, oracle_ids: Vec<OracleId>, composition: ArithExpr<7>, sum: u128)
        ensures
            final(self)@ == old(self)@.push(
                UngroupedModel {
                    name: sumcheck_name(),
                    oracle_ids: oracle_ids@,
                    composition: composition,
                    predicate: ConstraintPredicate::Sum(sum),
                },
            ),
    {
        let ghost pre = self@;
        let name: Vec<u8> = vec![115u8, 117u8, 109u8, 99u8, 104u8, 101u8, 99u8, 107u8];
        proof {
            assert(name@ =~= sumcheck_name());
        }
        self.constraints.push(
            UngroupedConstraint {
                name,
                oracle_ids,
                composition,
                predicate: ConstraintPredicate::Sum(sum),
            },
        );
        proof {
            assert(self@ =~= pre.push(
                UngroupedModel {
                    name: sumcheck_name(),
                    oracle_ids: oracle_ids@,
                    composition: composition,
                    predicate: ConstraintPredicate::Sum(sum),
                },
            ));
        }
    }

    /// Adds a constraint whose composition must vanish on the hypercube.
    pub fn add_zerocheck(
        &mut self,
        name: Vec<u8>,
        oracle_ids: Vec<OracleId>,
        composition: ArithExpr<7>,
    )
        ensures
            final(self)@ == old(self)@.push(
                UngroupedModel {
                    name: name@,
                    oracle_ids: oracle_ids@,
                    composition: composition,
                    predicate: ConstraintPredicate::Zero,
                },
            ),
    {
        let ghost pre = self@;
        self.constraints.push(
            UngroupedConstraint { name, oracle_ids, composition, predicate: ConstraintPredicate::Zero },
        );
        proof {
            assert(self@ =~= pre.push(
                UngroupedModel {
                    name: name@,
                    oracle_ids: oracle_ids@,
                    composition: composition,
                    predicate: ConstraintPredicate::Zero,
                },
            ));
        }
    }

    /// Builds a single constraint set: the sorted, deduplicated union of
    /// every referenced oracle, which must share one variable count, with
    /// each constraint's local indices remapped onto it.
    #[verifier::loop_isolation(false)]
    #[verifier::rlimit(60)]
    pub fn build_one(self, oracles: &MultilinearOracleSet) -> (r: Result<ConstraintSet, Error>)
        requires
            oracles.wf(),
        ensures
            r matches Ok(cs) ==> ({
                let m = cs@;
                let u = all_ids(self@, 0);
                &&& strictly_sorted(m.oracle_ids)
                &&& (forall|y: usize| m.oracle_ids.contains(y) <==> u.contains(y))
                &&& m.oracle_ids.len() > 0
                &&& (forall|k: int|
                    0 <= k < m.oracle_ids.len() ==> (#[trigger] m.oracle_ids[k]) < oracles@.len()
                        && model_n_vars(oracles@, m.oracle_ids[k] as int) == m.n_vars)
                &&& m.constraints.len() == self@.len()
                &&& (forall|k: int|
                    0 <= k < self@.len() ==> {
                        let pos = spec_positions((#[trigger] self@[k]).oracle_ids, m.oracle_ids);
                        &&& m.constraints[k].name == self@[k].name
                        &&& m.constraints[k].predicate == self@[k].predicate
                        &&& pos is Some
                        &&& self@[k].composition.spec_remap(pos->Some_0) == Ok::<
                            ArithExpr<7>,
                            usize,
                        >(m.constraints[k].composition)
                    })
            }),
            r matches Err(e) ==> (e == Error::EmptyConstraintSet || e matches
                Error::InvalidOracleId { .. } || e matches Error::ConstraintSetNvarsMismatch {
                ..
            } || e matches Error::IncorrectArgumentLength { .. }),
            r == Err::<ConstraintSet, Error>(Error::EmptyConstraintSet) <==> all_ids(
                self@,
                0,
            ).len() == 0,
            r matches Err(e) ==> ((e matches Error::InvalidOracleId { .. }) ==> (exists|j: int|
                0 <= j < all_ids(self@, 0).len() && #[trigger] all_ids(self@, 0)[j]
                    == e->InvalidOracleId_id && e->InvalidOracleId_id >= oracles@.len())),
            r matches Err(e) ==> ((e matches Error::ConstraintSetNvarsMismatch { .. }) ==> ((
            forall|j: int|
                0 <= j < all_ids(self@, 0).len() ==> (#[trigger] all_ids(self@, 0)[j])
                    < oracles@.len()) && exists|j1: int, j2: int|
                0 <= j1 < all_ids(self@, 0).len() && 0 <= j2 < all_ids(self@, 0).len()
                    && model_n_vars(oracles@, #[trigger] all_ids(self@, 0)[j1] as int)
                    != model_n_vars(oracles@, #[trigger] all_ids(self@, 0)[j2] as int))),
            r matches Err(e) ==> ((e matches Error::IncorrectArgumentLength { .. }) ==> (exists|
                k: int,
            |
                0 <= k < self@.len() && (#[trigger] self@[k]).composition.spec_n_vars()
                    > self@[k].oracle_ids.len())),
            r is Ok <==> ({
                let u = all_ids(self@, 0);
                &&& u.len() > 0
                &&& (forall|j: int| 0 <= j < u.len() ==> (#[trigger] u[j]) < oracles@.len())
                &&& (forall|j1: int, j2: int|
                    0 <= j1 < u.len() && 0 <= j2 < u.len() ==> model_n_vars(
                        oracles@,
                        #[trigger] u[j1] as int,
                    ) == model_n_vars(oracles@, #[trigger] u[j2] as int))
                &&& (forall|k: int|
                    0 <= k < self@.len() ==> (#[trigger] self@[k]).composition.spec_n_vars()
                        <= self@[k].oracle_ids.len())
            }),
    {
        let ghost orig = self@;
        let ghost u = all_ids(orig, 0);

        // Concatenate every constraint's oracle list.
        let mut ids: Vec<usize> = Vec::new();
        let mut i: usize = 0;
        while i < self.constraints.len()
            invariant
                i <= orig.len(),
                self@ == orig,
                self.constraints@.len() == orig.len(),
                u == ids@ + all_ids(orig, i as int),
            decreases orig.len() - i,
        {
            let c = &self.constraints[i];
            proof {
                assert(c@ == orig[i as int]);
            }
            let mut j: usize = 0;
            let ghost ids_start = ids@;
            while j < c.oracle_ids.len()
                invariant
                    j <= c@.oracle_ids.len(),
                    ids@ == ids_start + c@.oracle_ids.take(j as int),
                decreases c@.oracle_ids.len() - j,
            {
                ids.push(c.oracle_ids[j]);
                proof {
                    assert(ids@ =~= ids_start + c@.oracle_ids.take(j as int + 1));
                }
                j = j + 1;
            }
            proof {
                assert(c@.oracle_ids.take(c@.oracle_ids.len() as int) == c@.oracle_ids);
                assert(u =~= ids@ + all_ids(orig, i as int + 1));
            }
            i = i + 1;
        }
        proof {
            assert(all_ids(orig, orig.len() as int) =~= Seq::<usize>::empty());
            assert(u =~= ids@);
        }

        if ids.len() == 0 {
            return Err(Error::EmptyConstraintSet);
        }

        // Every referenced oracle must be registered.
        let n = oracles.size();
        let mut k: usize = 0;
        while k < ids.len()
            invariant
                k <= ids@.len(),
                forall|j: int| 0 <= j < k ==> (#[trigger] ids@[j]) < oracles@.len(),
            decreases ids@.len() - k,
        {
            if ids[k] >= n {
                return Err(Error::InvalidOracleId { id: ids[k] });
            }
            k = k + 1;
        }

        // The sorted, deduplicated union: scan all handles in order.
        let mut out: Vec<usize> = Vec::new();
        let mut id: usize = 0;
        while id < n
            invariant
                id <= n,
                out@.len() <= id,
                forall|a: int, b: int| 0 <= a < b < out@.len() ==> out@[a] < out@[b],
                forall|a: int| 0 <= a < out@.len() ==> (#[trigger] out@[a]) < id,
                forall|y: usize| out@.contains(y) <==> (ids@.contains(y) && y < id),
            decreases n - id,
        {
            if contains_id(&ids, id) {
                let ghost pre = out@;
                out.push(id);
                proof {
                    assert forall|y: usize| out@.contains(y) implies (ids@.contains(y) && y < id
                        + 1) by {
                        let idx = choose|idx: int|
                            0 <= idx < out@.len() && out@[idx] == y;
                        if idx < pre.len() {
                            assert(pre.contains(y));
                        }
                    }
                    assert forall|y: usize| (ids@.contains(y) && y < id + 1) implies out@.contains(
                        y,
                    ) by {
                        if y < id {
                            assert(pre.contains(y));
                            let idx = choose|idx: int| 0 <= idx < pre.len() && pre[idx] == y;
                            assert(out@[idx] == y);
                        } else {
                            assert(out@[out@.len() - 1] == y);
                        }
                    }
                }
            }
            id = id + 1;
        }
        proof {
            // The union is nonempty, so the scan found something.
            assert(ids@.contains(ids@[0]));
            assert(out@.contains(ids@[0]));
        }

        // All referenced oracles must share one variable count.
        let expected = oracles.n_vars(out[0]);
        let mut k: usize = 0;
        while k < out.len()
            invariant
                k <= out@.len(),
                forall|j: int|
                    0 <= j < k ==> model_n_vars(oracles@, (#[trigger] out@[j]) as int) == expected,
            decreases out@.len() - k,
        {
            let got = oracles.n_vars(out[k]);
            if got != expected {
                proof {
                    assert(out@.contains(out@[0]));
                    assert(out@.contains(out@[k as int]));
                    let u2 = all_ids(orig, 0);
                    assert(u2.contains(out@[0]));
                    assert(u2.contains(out@[k as int]));
                    let w1 = choose|w: int| 0 <= w < u2.len() && u2[w] == out@[0];
                    let w2 = choose|w: int| 0 <= w < u2.len() && u2[w] == out@[k as int];
                    assert(model_n_vars(oracles@, u2[w1] as int) != model_n_vars(
                        oracles@,
                        u2[w2] as int,
                    ));
                }
                return Err(Error::ConstraintSetNvarsMismatch { expected, got });
            }
            k = k + 1;
        }

        // Remap each constraint onto positions within the union.
        let mut remapped: Vec<Constraint> = Vec::new();
        let mut rest = self.constraints;
        proof {
            assert(rest@.map_values(|c: UngroupedConstraint| c@) =~= orig.skip(0));
        }
        let mut k: usize = 0;
        while rest.len() > 0
            invariant
                k == orig.len() - rest@.len(),
                0 <= k <= orig.len(),
                rest@.map_values(|c: UngroupedConstraint| c@) == orig.skip(k as int),
                remapped@.len() == k,
                forall|q: int|
                    0 <= q < k ==> {
                        let pos = spec_positions((#[trigger] orig[q]).oracle_ids, out@);
                        &&& remapped@.map_values(|c: Constraint| c@)[q].name == orig[q].name
                        &&& remapped@.map_values(|c: Constraint| c@)[q].predicate
                            == orig[q].predicate
                        &&& pos is Some
                        &&& orig[q].composition.spec_remap(pos->Some_0) == Ok::<
                            ArithExpr<7>,
                            usize,
                        >(remapped@.map_values(|c: Constraint| c@)[q].composition)
                    },
            decreases rest@.len(),
        {
            let ghost rest_pre = rest@;
            let c = rest.remove(0);
            proof {
                assert(c@ == rest_pre.map_values(|c: UngroupedConstraint| c@)[0]);
                assert(c@ == orig.skip(k as int)[0]);
                assert(c@ == orig[k as int]);
                let mapped = rest@.map_values(|c: UngroupedConstraint| c@);
                assert forall|j: int|
                    0 <= j < mapped.len() implies #[trigger] mapped[j] == orig.skip(
                    k as int + 1,
                )[j] by {
                    assert(rest@[j] == rest_pre[j + 1]);
                    assert(rest_pre.map_values(|c: UngroupedConstraint| c@)[j + 1] == orig.skip(
                        k as int,
                    )[j + 1]);
                }
                assert(rest@.map_values(|c: UngroupedConstraint| c@) =~= orig.skip(k as int + 1));
                // Every oracle of this constraint occurs in the union.
                assert forall|j: int|
                    0 <= j < c@.oracle_ids.len() implies spec_index_of(
                    out@,
                    #[trigger] c@.oracle_ids[j],
                    0,
                ) >= 0 by {
                    lemma_all_ids_contains(orig, k as int, j);
                    assert(ids@.contains(c@.oracle_ids[j]));
                    assert(out@.contains(c@.oracle_ids[j]));
                    let idx = choose|idx: int|
                        0 <= idx < out@.len() && out@[idx] == c@.oracle_ids[j];
                    lemma_index_of_contains(out@, c@.oracle_ids[j], idx);
                }
                lemma_positions_char(c@.oracle_ids, out@);
            }
            let pos = match positions(&c.oracle_ids, &out) {
                Some(p) => p,
                None => {
                    proof {
                        assert(false);
                    }
                    return Err(Error::EmptyConstraintSet);
                },
            };
            let comp = match c.composition.remap_vars(&pos) {
                Ok(e) => e,
                Err(e) => {
                    proof {
                        lemma_remap_ok_iff(orig[k as int].composition, pos@);
                        assert(orig[k as int].composition.spec_n_vars() > orig[
                            k as int
                        ].oracle_ids.len());
                    }
                    return Err(e);
                },
            };
            proof {
                lemma_remap_ok_iff(orig[k as int].composition, pos@);
            }
            remapped.push(Constraint { name: c.name, composition: comp, predicate: c.predicate });
            k = k + 1;
        }
        proof {
            assert(remapped@.map_values(|c: Constraint| c@).len() == orig.len());
        }
        let result = ConstraintSet { n_vars: expected, oracle_ids: out, constraints: remapped };
        proof {
            lemma_build_one_iff(orig, oracles@, result@);
        }
        Ok(result)
    }

    /// Builds one constraint set per connected group of oracles, where
    /// groups join constraints that share oracles, directly or through
    /// the structural edges of shifted and linear-combination
    /// descriptors. Each group's oracles must share one variable count;
    /// the emitted sets reference pairwise disjoint oracles.
    #[verifier::loop_isolation(false)]
    #[verifier::rlimit(100)]
    pub fn build(self, oracles: &MultilinearOracleSet) -> (r: Result<Vec<ConstraintSet>, Error>)
        requires
            oracles.wf(),
        ensures
            r matches Ok(v) ==> ({
                let sets = v@.map_values(|cs: ConstraintSet| cs@);
                &&& (forall|s: int|
                    0 <= s < sets.len() ==> strictly_sorted((#[trigger] sets[s]).oracle_ids))
                &&& (forall|s: int| 0 <= s < sets.len() ==> (#[trigger] sets[s]).oracle_ids.len()
                    > 0)
                &&& (forall|s: int| 0 <= s < sets.len() ==> (#[trigger] sets[s]).constraints.len()
                    > 0)
                &&& (forall|s: int, k: int|
                    0 <= s < sets.len() && 0 <= k < sets[s].oracle_ids.len() ==> (
                    #[trigger] sets[s].oracle_ids[k]) < oracles@.len() && model_n_vars(
                        oracles@,
                        sets[s].oracle_ids[k] as int,
                    ) == sets[s].n_vars)
                &&& (forall|s1: int, s2: int, y: usize|
                    0 <= s1 < s2 < sets.len() ==> !((#[trigger] sets[s1].oracle_ids.contains(y))
                        && (#[trigger] sets[s2].oracle_ids.contains(y))))
                &&& spec_total_constraints(sets, 0) == self@.len()
                &&& (forall|si: int, p: int|
                    0 <= si < sets.len() && 0 <= p < sets[si].constraints.len()
                        ==> #[trigger] constraint_has_source(self@, sets[si], p))
            }),
            r is Ok ==> (forall|k: int|
                0 <= k < self@.len() ==> ((#[trigger] self@[k]).oracle_ids.len() > 0 && (forall|
                    j: int,
                |
                    0 <= j < self@[k].oracle_ids.len() ==> (#[trigger] self@[k].oracle_ids[j])
                        < oracles@.len()) && (forall|j1: int, j2: int|
                    0 <= j1 < self@[k].oracle_ids.len() && 0 <= j2 < self@[k].oracle_ids.len()
                        ==> model_n_vars(oracles@, #[trigger] self@[k].oracle_ids[j1] as int)
                        == model_n_vars(oracles@, #[trigger] self@[k].oracle_ids[j2] as int)))),
            r matches Err(e) ==> (e == Error::EmptyConstraintSet || e matches
                Error::InvalidOracleId { .. } || e matches Error::ConstraintSetNvarsMismatch {
                ..
            } || e matches Error::IncorrectArgumentLength { .. }),
            r matches Ok(v) ==> ({
                let sets = v@.map_values(|cs: ConstraintSet| cs@);
                let ch = build_chunks(self@, oracles@);
                &&& (forall|si: int, y1: usize, y2: usize|
                    0 <= si < sets.len() && (#[trigger] sets[si].oracle_ids.contains(y1)) && (
                    #[trigger] sets[si].oracle_ids.contains(y2)) ==> chunk_connected(
                        ch,
                        ch.len() as int,
                        y1 as int,
                        y2 as int,
                    ))
                &&& (forall|s1: int, s2: int, y1: usize, y2: usize|
                    0 <= s1 < s2 < sets.len() && (#[trigger] sets[s1].oracle_ids.contains(y1))
                        && (#[trigger] sets[s2].oracle_ids.contains(y2)) ==> !chunk_connected(
                        ch,
                        ch.len() as int,
                        y1 as int,
                        y2 as int,
                    ))
            }),
            build_succeeds_on(self@, oracles@) ==> r is Ok,
            r is Err ==> !build_succeeds_on(self@, oracles@),
            r == Err::<Vec<ConstraintSet>, Error>(Error::EmptyConstraintSet) ==> (exists|k: int|
                0 <= k < self@.len() && (#[trigger] self@[k]).oracle_ids.len() == 0),
            r matches Err(e) ==> ((e matches Error::InvalidOracleId { .. }) ==> (exists|
                k: int,
                j: int,
            |
                0 <= k < self@.len() && 0 <= j < self@[k].oracle_ids.len()
                    && #[trigger] self@[k].oracle_ids[j] == e->InvalidOracleId_id
                    && e->InvalidOracleId_id >= oracles@.len())),
            r matches Err(e) ==> ((e matches Error::ConstraintSetNvarsMismatch { .. }) ==> (exists|
                k1: int,
                j1: int,
                k2: int,
                j2: int,
            |
                0 <= k1 < self@.len() && 0 <= j1 < self@[k1].oracle_ids.len() && 0 <= k2
                    < self@.len() && 0 <= j2 < self@[k2].oracle_ids.len() && chunk_connected(
                    build_chunks(self@, oracles@),
                    build_chunks(self@, oracles@).len() as int,
                    (#[trigger] self@[k1].oracle_ids[j1]) as int,
                    (#[trigger] self@[k2].oracle_ids[j2]) as int,
                ) && model_n_vars(oracles@, self@[k1].oracle_ids[j1] as int) != model_n_vars(
                    oracles@,
                    self@[k2].oracle_ids[j2] as int,
                ))),
            r matches Err(e) ==> ((e matches Error::IncorrectArgumentLength { .. }) ==> (exists|
                k: int,
            |
                0 <= k < self@.len() && (#[trigger] self@[k]).composition.spec_n_vars()
                    > self@[k].oracle_ids.len())),
    {
        let ghost orig = self@;
        let n = oracles.size();

        // Per-constraint checks: a constraint must reference at least
        // one registered oracle and its own oracles must share one
        // variable count.
        let mut i: usize = 0;
        while i < self.constraints.len()
            invariant
                i <= orig.len(),
                self@ == orig,
                self.constraints@.len() == orig.len(),
                forall|k: int, j: int|
                    0 <= k < i && 0 <= j < orig[k].oracle_ids.len() ==> (
                    #[trigger] orig[k].oracle_ids[j]) < n,
                forall|k: int| 0 <= k < i ==> (#[trigger] orig[k]).oracle_ids.len() > 0,
                forall|k: int, j1: int, j2: int|
                    0 <= k < i && 0 <= j1 < orig[k].oracle_ids.len() && 0 <= j2 < orig[k].oracle_ids.len()
                        ==> model_n_vars(oracles@, #[trigger] orig[k].oracle_ids[j1] as int)
                        == model_n_vars(oracles@, #[trigger] orig[k].oracle_ids[j2] as int),
            decreases orig.len() - i,
        {
            let c = &self.constraints[i];
            proof {
                assert(c@ == orig[i as int]);
            }
            if c.oracle_ids.len() == 0 {
                proof {
                    assert(orig[i as int].oracle_ids.len() == 0);
                }
                return Err(Error::EmptyConstraintSet);
            }
            let mut j: usize = 0;
            while j < c.oracle_ids.len()
                invariant
                    j <= c@.oracle_ids.len(),
                    forall|q: int| 0 <= q < j ==> (#[trigger] c@.oracle_ids[q]) < n,
                decreases c@.oracle_ids.len() - j,
            {
                if c.oracle_ids[j] >= n {
                    proof {
                        assert(orig[i as int].oracle_ids[j as int] >= oracles@.len());
                    }
                    return Err(Error::InvalidOracleId { id: c.oracle_ids[j] });
                }
                j = j + 1;
            }
            let expected = oracles.n_vars(c.oracle_ids[0]);
            let mut j: usize = 0;
            while j < c.oracle_ids.len()
                invariant
                    j <= c@.oracle_ids.len(),
                    forall|q: int|
                        0 <= q < j ==> model_n_vars(oracles@, (#[trigger] c@.oracle_ids[q]) as int)
                            == expected,
                decreases c@.oracle_ids.len() - j,
            {
                let got = oracles.n_vars(c.oracle_ids[j]);
                if got != expected {
                    proof {
                        // The two columns of one constraint are
                        // chunk-mates, hence connected.
                        let ch = build_chunks(orig, oracles@);
                        let x = orig[i as int].oracle_ids[0] as int;
                        let y = orig[i as int].oracle_ids[j as int] as int;
                        assert(ch[i as int] == orig[i as int].oracle_ids);
                        assert((ch[i as int][0]) as int == x);
                        assert((ch[i as int][j as int]) as int == y);
                        assert(chunk_step(ch, ch.len() as int, x, y));
                        lemma_conn_step(ch, ch.len() as int, x, y);
                    }
                    return Err(Error::ConstraintSetNvarsMismatch { expected, got });
                }
                j = j + 1;
            }
            i = i + 1;
        }

        // Connectivity chunks: each constraint's own oracle list, then
        // one structural chunk per graph descriptor.
        let ghost ch_spec = build_chunks(orig, oracles@);
        let mut chunks: Vec<Vec<usize>> = Vec::new();
        let mut i: usize = 0;
        while i < self.constraints.len()
            invariant
                i <= orig.len(),
                self@ == orig,
                self.constraints@.len() == orig.len(),
                chunks@.len() == i,
                forall|k: int|
                    0 <= k < i ==> (#[trigger] chunks@[k])@ == ch_spec[k],
            decreases orig.len() - i,
        {
            let ids = copy_ids(&self.constraints[i].oracle_ids);
            proof {
                assert(ids@ == orig[i as int].oracle_ids);
            }
            chunks.push(ids);
            i = i + 1;
        }
        let ghost n_constraint_chunks = chunks@.len();
        let mut oid: usize = 0;
        while oid < n
            invariant
                oid <= n,
                n == oracles@.len(),
                oracles.wf(),
                n_constraint_chunks == orig.len(),
                chunks@.len() == n_constraint_chunks + oid,
                forall|k: int|
                    0 <= k < chunks@.len() ==> (#[trigger] chunks@[k])@ == ch_spec[k],
                forall|k: int, a: int|
                    n_constraint_chunks <= k < chunks@.len() && 0 <= a < chunks@[k]@.len() ==> (
                    #[trigger] chunks@[k]@[a]) < n,
            decreases n - oid,
        {
            proof {
                assert(crate::oracle::oracle_ok(oracles@, oid as int));
            }
            match oracles.oracle(oid) {
                MultilinearPolyOracle::Shifted { inner, .. } => {
                    let mut edge: Vec<usize> = Vec::new();
                    edge.push(oid);
                    edge.push(inner);
                    proof {
                        assert(edge@ =~= ch_spec[n_constraint_chunks + oid]);
                    }
                    chunks.push(edge);
                },
                MultilinearPolyOracle::LinearCombination { terms, .. } => {
                    let ghost tmodel = (oracles@[oid as int])->LinearCombination_terms;
                    proof {
                        assert(terms@ == tmodel);
                    }
                    let mut edge: Vec<usize> = Vec::new();
                    edge.push(oid);
                    let mut t: usize = 0;
                    while t < terms.len()
                        invariant
                            t <= terms@.len(),
                            edge@.len() == 1 + t,
                            edge@[0] == oid,
                            forall|q: int| 0 <= q < t ==> (#[trigger] edge@[q + 1]) == terms@[q].0,
                            forall|q: int| 0 <= q < edge@.len() ==> (#[trigger] edge@[q]) < n,
                        decreases terms@.len() - t,
                    {
                        let (inner, _c) = terms[t];
                        proof {
                            assert((terms@[t as int]).0 < oid);
                        }
                        edge.push(inner);
                        t = t + 1;
                    }
                    proof {
                        assert forall|q: int|
                            1 <= q < edge@.len() implies #[trigger] edge@[q] == terms@[q - 1].0 by {
                            assert(edge@[(q - 1) + 1] == terms@[q - 1].0);
                        }
                        assert(edge@ =~= seq![oid] + term_id_seq(tmodel));
                        assert(edge@ =~= ch_spec[n_constraint_chunks + oid]);
                    }
                    chunks.push(edge);
                },
                _ => {
                    let edge: Vec<usize> = Vec::new();
                    proof {
                        assert(edge@ =~= ch_spec[n_constraint_chunks + oid]);
                    }
                    chunks.push(edge);
                },
            }
            oid = oid + 1;
        }

        let labels = compute_labels(n, &chunks);
        let ghost hs = chunks@.map_values(|h: Vec<usize>| h@);
        proof {
            assert(hs =~= ch_spec);
            // Every chunk member is a registered handle.
            assert forall|k: int, a: int|
                0 <= k < hs.len() && 0 <= a < hs[k].len() implies (((#[trigger] hs[k][a])) as int)
                < n by {
                assert(hs[k] == chunks@[k]@);
                if k < n_constraint_chunks {
                    assert(hs[k] == orig[k].oracle_ids);
                }
            }
        }

        // Distribute the constraints over per-label builders.
        let mut builders: Vec<ConstraintSetBuilder> = Vec::new();
        let mut l: usize = 0;
        while l < n
            invariant
                l <= n,
                builders@.len() == l,
                forall|q: int| 0 <= q < l ==> (#[trigger] builders@[q])@.len() == 0,
            decreases n - l,
        {
            builders.push(ConstraintSetBuilder::new());
            l = l + 1;
        }
        let mut rest = self.constraints;
        proof {
            assert(rest@.map_values(|c: UngroupedConstraint| c@) =~= orig.skip(0));
            lemma_sum_all_empty(builders@, 0);
        }
        let mut k: usize = 0;
        while rest.len() > 0
            invariant
                k == orig.len() - rest@.len(),
                0 <= k <= orig.len(),
                rest@.map_values(|c: UngroupedConstraint| c@) == orig.skip(k as int),
                builders@.len() == n,
                labels@.len() == n,
                forall|v: int| 0 <= v < n ==> (#[trigger] labels@[v]) < n,
                forall|q: int, p: int, j: int|
                    0 <= q < n && 0 <= p < (#[trigger] builders@[q])@.len() && 0 <= j < builders@[
                        q
                    ]@[p].oracle_ids.len() ==> (#[trigger] builders@[q]@[p].oracle_ids[j]) < n
                        && labels@[builders@[q]@[p].oracle_ids[j] as int] == q,
                forall|q: int|
                    0 <= q < n ==> (forall|p: int|
                        0 <= p < (#[trigger] builders@[q])@.len() ==> (
                        #[trigger] builders@[q]@[p]).oracle_ids.len() > 0),
                sum_builder_lens(builders@, 0) == k,
                builder_entries_from(builders@, orig),
            decreases rest@.len(),
        {
            let ghost rest_pre = rest@;
            let c = rest.remove(0);
            proof {
                assert(c@ == rest_pre.map_values(|c: UngroupedConstraint| c@)[0]);
                assert(c@ == orig.skip(k as int)[0]);
                assert(c@ == orig[k as int]);
                let mapped = rest@.map_values(|c: UngroupedConstraint| c@);
                assert forall|j: int|
                    0 <= j < mapped.len() implies #[trigger] mapped[j] == orig.skip(
                    k as int + 1,
                )[j] by {
                    assert(rest@[j] == rest_pre[j + 1]);
                    assert(rest_pre.map_values(|c: UngroupedConstraint| c@)[j + 1] == orig.skip(
                        k as int,
                    )[j + 1]);
                }
                assert(rest@.map_values(|c: UngroupedConstraint| c@) =~= orig.skip(k as int + 1));
            }
            let lab = labels[c.oracle_ids[0]];
            proof {
                // All of this constraint's oracles carry the label of
                // its first one: they form one chunk.
                assert(hs[k as int] == orig[k as int].oracle_ids);
                assert forall|j: int|
                    0 <= j < c@.oracle_ids.len() implies labels@[(#[trigger] c@.oracle_ids[j])
                    as int] == lab by {
                    assert(hs[k as int][0] == c@.oracle_ids[0]);
                    assert(hs[k as int][j] == c@.oracle_ids[j]);
                }
            }
            let ghost builders_pre = builders@;
            let mut b = builders.remove(lab);
            let ghost b_pre = b@;
            let ghost builders_mid = builders@;
            b.constraints.push(c);
            proof {
                assert(b@ =~= b_pre.push(orig[k as int]));
            }
            builders.insert(lab, b);
            proof {
                assert(builders@ =~= builders_mid.insert(lab as int, b));
                lemma_sum_remove(builders_pre, lab as int, 0);
                lemma_sum_insert(builders_mid, lab as int, b, 0);
                assert(sum_builder_lens(builders@, 0) == sum_builder_lens(
                    builders_mid.insert(lab as int, b),
                    0,
                ));
                assert(builders@[lab as int]@[b_pre.len() as int] == orig[k as int]);
                lemma_entries_remove(builders_pre, orig, lab as int);
                assert(builders_mid == builders_pre.remove(lab as int));
                assert forall|p: int|
                    0 <= p < b@.len() implies orig.contains(#[trigger] b@[p]) by {
                    if p < b_pre.len() {
                        assert(b@[p] == builders_pre[lab as int]@[p]);
                        assert(orig.contains(builders_pre[lab as int]@[p]));
                    } else {
                        assert(b@[p] == orig[k as int]);
                        assert(orig.contains(orig[k as int]));
                    }
                }
                lemma_entries_insert(builders_mid, orig, lab as int, b);
                assert(builders@ == builders_mid.insert(lab as int, b));
            }
            k = k + 1;
        }

        // Emit one set per nonempty group, in ascending label order.
        let mut out: Vec<ConstraintSet> = Vec::new();
        let ghost mut out_labs: Seq<usize> = Seq::<usize>::empty();
        let mut lab: usize = 0;
        while lab < n
            invariant
                lab <= n,
                builders@.len() == n - lab,
                labels@.len() == n,
                out_labs.len() == out@.len(),
                forall|s: int| 0 <= s < out@.len() ==> (#[trigger] out_labs[s]) < lab,
                forall|s1: int, s2: int|
                    0 <= s1 < s2 < out_labs.len() ==> (#[trigger] out_labs[s1]) < (
                    #[trigger] out_labs[s2]),
                forall|q: int, p: int, j: int|
                    0 <= q < builders@.len() && 0 <= p < (#[trigger] builders@[q])@.len() && 0 <= j
                        < builders@[q]@[p].oracle_ids.len() ==> (
                    #[trigger] builders@[q]@[p].oracle_ids[j]) < n && labels@[builders@[q]@[p].oracle_ids[j] as int]
                        == q + lab,
                forall|q: int|
                    0 <= q < builders@.len() ==> (forall|p: int|
                        0 <= p < (#[trigger] builders@[q])@.len() ==> (
                        #[trigger] builders@[q]@[p]).oracle_ids.len() > 0),
                forall|s: int|
                    0 <= s < out@.len() ==> strictly_sorted(((#[trigger] out@[s])@).oracle_ids)
                        && (out@[s]@).oracle_ids.len() > 0 && (out@[s]@).constraints.len() > 0,
                forall|s: int, kk: int|
                    0 <= s < out@.len() && 0 <= kk < (out@[s]@).oracle_ids.len() ==> (#[trigger] ((
                    out@[s]@).oracle_ids[kk])) < oracles@.len() && model_n_vars(
                        oracles@,
                        (out@[s]@).oracle_ids[kk] as int,
                    ) == (out@[s]@).n_vars,
                forall|s: int, y: usize|
                    0 <= s < out@.len() && #[trigger] (out@[s]@).oracle_ids.contains(y) ==> y < n
                        && labels@[y as int] == out_labs[s],
                spec_total_constraints(out@.map_values(|cs: ConstraintSet| cs@), 0)
                    + sum_builder_lens(builders@, 0) == orig.len(),
                builder_entries_from(builders@, orig),
                forall|si: int, p: int|
                    0 <= si < out@.len() && 0 <= p < (out@[si]@).constraints.len()
                        ==> #[trigger] constraint_has_source(orig, out@[si]@, p),
            decreases n - lab,
        {
            let ghost builders_pre = builders@;
            let b = builders.remove(0);
            let ghost bm = b@;
            proof {
                lemma_sum_remove(builders_pre, 0, 0);
                assert(builders_pre[0] == b);
                lemma_entries_remove(builders_pre, orig, 0);
                assert(builders@ == builders_pre.remove(0));
            }
            if b.constraints.len() > 0 {
                let cs = match b.build_one(oracles) {
                    Ok(cs) => cs,
                    Err(e) => {
                        proof {
                            let u = all_ids(bm, 0);
                            // The group's members: nonempty, valid,
                            // labelled with this group's label, and
                            // drawn from the original constraints.
                            assert(bm.len() > 0);
                            assert(bm[0].oracle_ids.len() > 0);
                            assert(u == bm[0].oracle_ids + all_ids(bm, 1));
                            assert(u.len() >= bm[0].oracle_ids.len());
                            assert forall|w: int|
                                0 <= w < u.len() implies ((#[trigger] u[w]) < n && labels@[u[w]
                                as int] == lab && exists|k2: int, j2: int|
                                0 <= k2 < orig.len() && 0 <= j2 < orig[k2].oracle_ids.len()
                                    && #[trigger] orig[k2].oracle_ids[j2] == u[w]) by {
                                lemma_all_ids_member(bm, 0, w);
                                let (kk, jj) = choose|kk: int, jj: int|
                                    0 <= kk < bm.len() && 0 <= jj < bm[kk].oracle_ids.len()
                                        && #[trigger] bm[kk].oracle_ids[jj] == u[w];
                                assert(builders_pre[0]@[kk] == bm[kk]);
                                assert(orig.contains(bm[kk]));
                                let k2 = choose|k2: int|
                                    0 <= k2 < orig.len() && orig[k2] == #[trigger] bm[kk];
                                assert(orig[k2].oracle_ids[jj] == u[w]);
                            }
                            if e == Error::EmptyConstraintSet {
                                assert(false);
                            } else if e matches Error::InvalidOracleId { .. } {
                                assert(false);
                            } else if e matches Error::ConstraintSetNvarsMismatch { .. } {
                                // Two same-labelled columns disagree on
                                // arity: soundness makes them
                                // connected, refuting the success
                                // conditions.
                                let (j1, j2) = choose|j1: int, j2: int|
                                    0 <= j1 < u.len() && 0 <= j2 < u.len() && model_n_vars(
                                        oracles@,
                                        #[trigger] u[j1] as int,
                                    ) != model_n_vars(oracles@, #[trigger] u[j2] as int);
                                let y1 = u[j1];
                                let y2 = u[j2];
                                assert(labels@[y1 as int] == labels@[y2 as int]);
                                assert(chunk_connected(hs, hs.len() as int, y1 as int, y2 as int));
                                let (ka, ja) = choose|k2: int, jj: int|
                                    0 <= k2 < orig.len() && 0 <= jj < orig[k2].oracle_ids.len()
                                        && #[trigger] orig[k2].oracle_ids[jj] == y1;
                                let (kb, jb) = choose|k2: int, jj: int|
                                    0 <= k2 < orig.len() && 0 <= jj < orig[k2].oracle_ids.len()
                                        && #[trigger] orig[k2].oracle_ids[jj] == y2;
                                assert(orig[ka].oracle_ids[ja] == y1);
                                assert(orig[kb].oracle_ids[jb] == y2);
                            } else {
                                // A composition outruns its own oracle
                                // list.
                                let k = choose|k: int|
                                    0 <= k < bm.len() && (#[trigger] bm[k]).composition.spec_n_vars()
                                        > bm[k].oracle_ids.len();
                                assert(builders_pre[0]@[k] == bm[k]);
                                assert(orig.contains(bm[k]));
                                let k2 = choose|k2: int|
                                    0 <= k2 < orig.len() && orig[k2] == #[trigger] bm[k];
                                assert(orig[k2].composition.spec_n_vars()
                                    > orig[k2].oracle_ids.len());
                            }
                        }
                        return Err(e);
                    },
                };
                proof {
                    // Every oracle of the new set carries this label.
                    assert forall|y: usize| (#[trigger] cs@.oracle_ids.contains(y)) implies y < n
                        && labels@[y as int] == lab by {
                        assert(all_ids(bm, 0).contains(y));
                        let w = choose|w: int|
                            0 <= w < all_ids(bm, 0).len() && #[trigger] all_ids(bm, 0)[w] == y;
                        lemma_all_ids_member(bm, 0, w);
                        let (kk, jj) = choose|kk: int, jj: int|
                            0 <= kk < bm.len() && 0 <= jj < bm[kk].oracle_ids.len()
                                && #[trigger] bm[kk].oracle_ids[jj] == all_ids(bm, 0)[w];
                        assert(builders_pre[0] == b);
                        assert(labels@[bm[kk].oracle_ids[jj] as int] == 0 + lab);
                    }
                }
                let ghost out_pre = out@;
                out.push(cs);
                proof {
                    out_labs = out_labs.push(lab);
                    lemma_total_push(
                        out_pre.map_values(|c: ConstraintSet| c@),
                        cs@,
                    );
                    assert(out@.map_values(|c: ConstraintSet| c@) =~= out_pre.map_values(
                        |c: ConstraintSet| c@,
                    ).push(cs@));
                    assert(cs@.constraints.len() == bm.len());
                    assert forall|si: int, p: int|
                        0 <= si < out@.len() && 0 <= p < (out@[si]@).constraints.len()
                            implies #[trigger] constraint_has_source(orig, out@[si]@, p) by {
                        if si == out@.len() - 1 {
                            // The new set's constraints come from this
                            // builder's pending constraints.
                            let pos = spec_positions(bm[p].oracle_ids, cs@.oracle_ids);
                            assert(cs@.constraints[p].name == bm[p].name);
                            assert(orig.contains(bm[p]));
                            let k2 = choose|k2: int| 0 <= k2 < orig.len() && orig[k2] == #[trigger] bm[p];
                            assert(orig[k2] == bm[p]);
                        } else {
                            assert(out@[si] == out_pre[si]);
                        }
                    }
                }
            } else {
                proof {
                    assert(bm.len() == 0);
                }
            }
            lab = lab + 1;
        }
        proof {
            assert(sum_builder_lens(builders@, 0) == 0);
            assert(spec_total_constraints(out@.map_values(|cs: ConstraintSet| cs@), 0)
                == orig.len());
        }
        proof {
            let sets = out@.map_values(|cs: ConstraintSet| cs@);
            assert forall|s: int| 0 <= s < sets.len() implies #[trigger] sets[s] == out@[s]@ by {}
            assert forall|s1: int, s2: int, y: usize|
                0 <= s1 < s2 < sets.len() implies !((#[trigger] sets[s1].oracle_ids.contains(y))
                && (#[trigger] sets[s2].oracle_ids.contains(y))) by {
                if sets[s1].oracle_ids.contains(y) && sets[s2].oracle_ids.contains(y) {
                    assert((out@[s1]@).oracle_ids.contains(y));
                    assert((out@[s2]@).oracle_ids.contains(y));
                    assert(labels@[y as int] == out_labs[s1]);
                    assert(labels@[y as int] == out_labs[s2]);
                    assert(out_labs[s1] != out_labs[s2]);
                }
            }
            // One set's oracles share a label, hence a component.
            assert forall|si: int, y1: usize, y2: usize|
                0 <= si < sets.len() && (#[trigger] sets[si].oracle_ids.contains(y1)) && (
            #[trigger] sets[si].oracle_ids.contains(y2)) implies chunk_connected(
                ch_spec,
                ch_spec.len() as int,
                y1 as int,
                y2 as int,
            ) by {
                assert((out@[si]@).oracle_ids.contains(y1));
                assert((out@[si]@).oracle_ids.contains(y2));
                assert(labels@[y1 as int] == out_labs[si]);
                assert(labels@[y2 as int] == out_labs[si]);
                assert(chunk_connected(hs, hs.len() as int, y1 as int, y2 as int));
            }
            // Distinct sets carry distinct labels, so connectivity
            // never crosses them.
            assert forall|s1: int, s2: int, y1: usize, y2: usize|
                0 <= s1 < s2 < sets.len() && (#[trigger] sets[s1].oracle_ids.contains(y1)) && (
            #[trigger] sets[s2].oracle_ids.contains(y2)) implies !chunk_connected(
                ch_spec,
                ch_spec.len() as int,
                y1 as int,
                y2 as int,
            ) by {
                assert((out@[s1]@).oracle_ids.contains(y1));
                assert((out@[s2]@).oracle_ids.contains(y2));
                if chunk_connected(hs, hs.len() as int, y1 as int, y2 as int) {
                    lemma_complete_over_paths(
                        labels@,
                        hs,
                        hs.len() as int,
                        y1 as int,
                        y2 as int,
                    );
                    assert(labels@[y1 as int] == labels@[y2 as int]);
                    assert(out_labs[s1] != out_labs[s2]);
                    assert(false);
                }
            }
        }
        Ok(out)
    }
}

/// Each position of the concatenated oracle lists belongs to some
/// pending constraint.
proof fn lemma_all_ids_member(cs: Seq<UngroupedModel>, i: int, w: int)
    requires
        0 <= i <= cs.len(),
        0 <= w < all_ids(cs, i).len(),
    ensures
        exists|k: int, j: int|
            i <= k < cs.len() && 0 <= j < cs[k].oracle_ids.len() && #[trigger] cs[k].oracle_ids[j]
                == all_ids(cs, i)[w],
    decreases cs.len() - i,
{
    if i < cs.len() {
        if w < cs[i].oracle_ids.len() {
            assert(all_ids(cs, i)[w] == cs[i].oracle_ids[w]);
        } else {
            lemma_all_ids_member(cs, i + 1, w - cs[i].oracle_ids.len());
            let (k, j) = choose|k: int, j: int|
                i + 1 <= k < cs.len() && 0 <= j < cs[k].oracle_ids.len() && #[trigger] cs[k].oracle_ids[j]
                    == all_ids(cs, i + 1)[w - cs[i].oracle_ids.len()];
            assert(all_ids(cs, i)[w] == all_ids(cs, i + 1)[w - cs[i].oracle_ids.len()]);
        }
    }
}

/// A copy of a vector of oracle handles.
fn copy_ids(v: &Vec<usize>) -> (r: Vec<usize>)
    ensures
        r@ == v@,
{
    let mut out: Vec<usize> = Vec::new();
    let mut i: usize = 0;
    while i < v.len()
        invariant
            i <= v@.len(),
            out@ == v@.take(i as int),
        decreases v@.len() - i,
    {
        out.push(v[i]);
        proof {
            assert(out@ == v@.take(i as int + 1));
        }
        i = i + 1;
    }
    proof {
        assert(v@.take(v@.len() as int) == v@);
    }
    out
}

/// Every pending constraint held by the builders is one of the given
/// originals.
pub open spec fn builder_entries_from(
    bs: Seq<ConstraintSetBuilder>,
    orig: Seq<UngroupedModel>,
) -> bool {
    forall|q: int, p: int|
        #![trigger bs[q]@[p]]
        0 <= q < bs.len() && 0 <= p < bs[q]@.len() ==> orig.contains(bs[q]@[p])
}

/// Membership survives removing a builder.
proof fn lemma_entries_remove(bs: Seq<ConstraintSetBuilder>, orig: Seq<UngroupedModel>, i: int)
    requires
        0 <= i < bs.len(),
        builder_entries_from(bs, orig),
    ensures
        builder_entries_from(bs.remove(i), orig),
{
    let bs2 = bs.remove(i);
    assert forall|q: int, p: int|
        #![trigger bs2[q]@[p]]
        0 <= q < bs2.len() && 0 <= p < bs2[q]@.len() implies orig.contains(bs2[q]@[p]) by {
        if q < i {
            assert(bs2[q] == bs[q]);
            assert(orig.contains(bs[q]@[p]));
        } else {
            assert(bs2[q] == bs[q + 1]);
            assert(orig.contains(bs[q + 1]@[p]));
        }
    }
}

/// Membership survives inserting a builder whose constraints are also
/// from the originals.
proof fn lemma_entries_insert(
    bs: Seq<ConstraintSetBuilder>,
    orig: Seq<UngroupedModel>,
    i: int,
    b: ConstraintSetBuilder,
)
    requires
        0 <= i <= bs.len(),
        builder_entries_from(bs, orig),
        forall|p: int|
            0 <= p < b@.len() ==> orig.contains(#[trigger] b@[p]),
    ensures
        builder_entries_from(bs.insert(i, b), orig),
{
    let bs2 = bs.insert(i, b);
    assert forall|q: int, p: int|
        #![trigger bs2[q]@[p]]
        0 <= q < bs2.len() && 0 <= p < bs2[q]@.len() implies orig.contains(bs2[q]@[p]) by {
        if q < i {
            assert(bs2[q] == bs[q]);
            assert(orig.contains(bs[q]@[p]));
        } else if q == i {
            assert(bs2[q] == b);
            assert(orig.contains(b@[p]));
        } else {
            assert(bs2[q] == bs[q - 1]);
            assert(orig.contains(bs[q - 1]@[p]));
        }
    }
}

/// Whether the `p`-th constraint of an emitted set is one of the
/// builder's pending constraints, remapped onto the set's oracle list.
pub open spec fn constraint_has_source(
    orig: Seq<UngroupedModel>,
    set: ConstraintSetModel,
    p: int,
) -> bool {
    exists|k: int|
        0 <= k < orig.len() && (#[trigger] orig[k]).name == set.constraints[p].name
            && orig[k].predicate == set.constraints[p].predicate && spec_positions(
            orig[k].oracle_ids,
            set.oracle_ids,
        ) is Some && orig[k].composition.spec_remap(
            spec_positions(orig[k].oracle_ids, set.oracle_ids)->Some_0,
        ) == Ok::<ArithExpr<7>, usize>(set.constraints[p].composition)
}

/// A row of empty builders holds no constraints.
proof fn lemma_sum_all_empty(bs: Seq<ConstraintSetBuilder>, i: int)
    requires
        0 <= i <= bs.len(),
        forall|q: int| 0 <= q < bs.len() ==> (#[trigger] bs[q])@.len() == 0,
    ensures
        sum_builder_lens(bs, i) == 0,
    decreases bs.len() - i,
{
    if i < bs.len() {
        lemma_sum_all_empty(bs, i + 1);
    }
}

/// Appending a set adds its constraints to the running total.
proof fn lemma_total_push(sets: Seq<ConstraintSetModel>, m: ConstraintSetModel)
    ensures
        spec_total_constraints(sets.push(m), 0) == spec_total_constraints(sets, 0)
            + m.constraints.len(),
{
    lemma_total_push_from(sets, m, 0);
}

/// The push law for the running total, from any start.
proof fn lemma_total_push_from(sets: Seq<ConstraintSetModel>, m: ConstraintSetModel, i: int)
    requires
        0 <= i <= sets.len(),
    ensures
        spec_total_constraints(sets.push(m), i) == spec_total_constraints(sets, i)
            + m.constraints.len(),
    decreases sets.len() - i,
{
    if i < sets.len() {
        assert(sets.push(m)[i] == sets[i]);
        lemma_total_push_from(sets, m, i + 1);
    } else {
        assert(sets.push(m)[i] == m);
        assert(spec_total_constraints(sets.push(m), i + 1) == 0);
    }
}

/// The total number of pending constraints across builders `i..`.
pub open spec fn sum_builder_lens(bs: Seq<ConstraintSetBuilder>, i: int) -> int
    decreases bs.len() - i,
{
    if i < 0 || i >= bs.len() {
        0
    } else {
        bs[i]@.len() + sum_builder_lens(bs, i + 1)
    }
}

/// Removing one builder removes exactly its constraints from the total.
proof fn lemma_sum_remove(bs: Seq<ConstraintSetBuilder>, i: int, j: int)
    requires
        0 <= j <= i < bs.len(),
    ensures
        sum_builder_lens(bs.remove(i), j) == sum_builder_lens(bs, j) - bs[i]@.len(),
    decreases i - j,
{
    if j < i {
        lemma_sum_remove(bs, i, j + 1);
        assert(bs.remove(i)[j] == bs[j]);
    } else {
        assert(sum_builder_lens(bs, i) == bs[i]@.len() + sum_builder_lens(bs, i + 1));
        lemma_sum_shift(bs, i);
    }
}

/// Beyond the removal point the totals agree up to the shift.
proof fn lemma_sum_shift(bs: Seq<ConstraintSetBuilder>, i: int)
    requires
        0 <= i < bs.len(),
    ensures
        sum_builder_lens(bs.remove(i), i) == sum_builder_lens(bs, i + 1),
    decreases bs.len() - i,
{
    if i < bs.len() - 1 {
        assert(bs.remove(i)[i] == bs[i + 1]);
        lemma_sum_shift_from(bs, i, i);
    }
}

/// Pointwise agreement of the shifted tails.
proof fn lemma_sum_shift_from(bs: Seq<ConstraintSetBuilder>, i: int, k: int)
    requires
        0 <= i <= k < bs.len(),
    ensures
        sum_builder_lens(bs.remove(i), k) == sum_builder_lens(bs, k + 1),
    decreases bs.len() - k,
{
    if k < bs.len() - 1 {
        assert(bs.remove(i)[k] == bs[k + 1]);
        lemma_sum_shift_from(bs, i, k + 1);
    }
}

/// Inserting one builder adds exactly its constraints to the total.
proof fn lemma_sum_insert(bs: Seq<ConstraintSetBuilder>, i: int, b: ConstraintSetBuilder, j: int)
    requires
        0 <= j <= i <= bs.len(),
    ensures
        sum_builder_lens(bs.insert(i, b), j) == sum_builder_lens(bs, j) + b@.len(),
    decreases i - j,
{
    if j < i {
        lemma_sum_insert(bs, i, b, j + 1);
        assert(bs.insert(i, b)[j] == bs[j]);
    } else {
        assert(bs.insert(i, b)[i] == b);
        lemma_sum_insert_tail(bs, i, b, i);
    }
}

/// Beyond the insertion point the totals agree up to the shift.
proof fn lemma_sum_insert_tail(bs: Seq<ConstraintSetBuilder>, i: int, b: ConstraintSetBuilder, k: int)
    requires
        0 <= i <= k <= bs.len(),
    ensures
        sum_builder_lens(bs.insert(i, b), k + 1) == sum_builder_lens(bs, k),
    decreases bs.len() - k,
{
    if k < bs.len() {
        assert(bs.insert(i, b)[k + 1] == bs[k]);
        lemma_sum_insert_tail(bs, i, b, k + 1);
    }
}

/// The total number of constraints across emitted sets `i..`.
pub open spec fn spec_total_constraints(sets: Seq<ConstraintSetModel>, i: int) -> int
    decreases sets.len() - i,
{
    if i < 0 || i >= sets.len() {
        0
    } else {
        sets[i].constraints.len() + spec_total_constraints(sets, i + 1)
    }
}

/// One connectivity step: `x` and `y` are both members of one of the
/// first `upto` chunks.
pub open spec fn chunk_step(hs: Seq<Seq<usize>>, upto: int, x: int, y: int) -> bool {
    exists|h: int, a: int, b: int|
        0 <= h < upto && 0 <= a < hs[h].len() && 0 <= b < hs[h].len() && (#[trigger] hs[h][a])
            as int == x && (#[trigger] hs[h][b]) as int == y
}

/// A chunk path of at most `steps` steps from `x` to `y`.
pub open spec fn chunk_path(hs: Seq<Seq<usize>>, upto: int, x: int, y: int, steps: nat) -> bool
    decreases steps,
{
    x == y || (steps > 0 && exists|z: int|
        #[trigger] chunk_step(hs, upto, x, z) && chunk_path(hs, upto, z, y, (steps - 1) as nat))
}

/// Whether `x` and `y` lie in one connected component of the chunk
/// graph: some chunk path joins them.
pub open spec fn chunk_connected(hs: Seq<Seq<usize>>, upto: int, x: int, y: int) -> bool {
    exists|steps: nat| chunk_path(hs, upto, x, y, #[trigger] trigger_nat(steps))
}

/// An identity marker used to give path-length quantifiers a trigger.
pub open spec fn trigger_nat(n: nat) -> nat {
    n
}

/// Connectivity is reflexive.
pub proof fn lemma_conn_refl(hs: Seq<Seq<usize>>, upto: int, x: int)
    ensures
        chunk_connected(hs, upto, x, x),
{
    assert(chunk_path(hs, upto, x, x, trigger_nat(0)));
}

/// A single step yields connectivity.
pub proof fn lemma_conn_step(hs: Seq<Seq<usize>>, upto: int, x: int, y: int)
    requires
        chunk_step(hs, upto, x, y),
    ensures
        chunk_connected(hs, upto, x, y),
{
    assert(chunk_path(hs, upto, y, y, 0));
    assert(chunk_path(hs, upto, x, y, trigger_nat(1)));
}

/// Paths concatenate.
proof fn lemma_path_trans(hs: Seq<Seq<usize>>, upto: int, x: int, y: int, z: int, n1: nat, n2: nat)
    requires
        chunk_path(hs, upto, x, y, n1),
        chunk_path(hs, upto, y, z, n2),
    ensures
        chunk_path(hs, upto, x, z, n1 + n2),
    decreases n1,
{
    if x == y {
        lemma_path_pad(hs, upto, y, z, n2, n1 + n2);
    } else {
        let w = choose|w: int|
            #[trigger] chunk_step(hs, upto, x, w) && chunk_path(hs, upto, w, y, (n1 - 1) as nat);
        lemma_path_trans(hs, upto, w, y, z, (n1 - 1) as nat, n2);
        assert(chunk_path(hs, upto, x, z, ((n1 - 1) + n2 + 1) as nat));
    }
}

/// A path is still a path under a larger step budget.
proof fn lemma_path_pad(hs: Seq<Seq<usize>>, upto: int, x: int, y: int, n1: nat, n2: nat)
    requires
        chunk_path(hs, upto, x, y, n1),
        n1 <= n2,
    ensures
        chunk_path(hs, upto, x, y, n2),
    decreases n1,
{
    if x != y {
        let w = choose|w: int|
            #[trigger] chunk_step(hs, upto, x, w) && chunk_path(hs, upto, w, y, (n1 - 1) as nat);
        lemma_path_pad(hs, upto, w, y, (n1 - 1) as nat, (n2 - 1) as nat);
    }
}

/// Connectivity is transitive.
pub proof fn lemma_conn_trans(hs: Seq<Seq<usize>>, upto: int, x: int, y: int, z: int)
    requires
        chunk_connected(hs, upto, x, y),
        chunk_connected(hs, upto, y, z),
    ensures
        chunk_connected(hs, upto, x, z),
{
    let n1 = choose|n: nat| chunk_path(hs, upto, x, y, #[trigger] trigger_nat(n));
    let n2 = choose|n: nat| chunk_path(hs, upto, y, z, #[trigger] trigger_nat(n));
    lemma_path_trans(hs, upto, x, y, z, n1, n2);
    assert(chunk_path(hs, upto, x, z, trigger_nat(n1 + n2)));
}

/// Connectivity over a prefix of the chunks holds over the whole list.
pub proof fn lemma_conn_mono(hs: Seq<Seq<usize>>, upto1: int, upto2: int, x: int, y: int)
    requires
        upto1 <= upto2,
        chunk_connected(hs, upto1, x, y),
    ensures
        chunk_connected(hs, upto2, x, y),
{
    let n = choose|n: nat| chunk_path(hs, upto1, x, y, #[trigger] trigger_nat(n));
    lemma_path_mono(hs, upto1, upto2, x, y, n);
    assert(chunk_path(hs, upto2, x, y, trigger_nat(n)));
}

/// A path over a prefix of the chunks is a path over the whole list.
proof fn lemma_path_mono(hs: Seq<Seq<usize>>, upto1: int, upto2: int, x: int, y: int, n: nat)
    requires
        upto1 <= upto2,
        chunk_path(hs, upto1, x, y, n),
    ensures
        chunk_path(hs, upto2, x, y, n),
    decreases n,
{
    if x != y {
        let w = choose|w: int|
            #[trigger] chunk_step(hs, upto1, x, w) && chunk_path(hs, upto1, w, y, (n - 1) as nat);
        lemma_path_mono(hs, upto1, upto2, w, y, (n - 1) as nat);
        assert(chunk_step(hs, upto2, x, w));
    }
}

/// Connected nodes share a label when chunk-mates do.
pub proof fn lemma_complete_over_paths(
    labels: Seq<usize>,
    hs: Seq<Seq<usize>>,
    upto: int,
    x: int,
    y: int,
)
    requires
        labels_complete(labels, hs, upto),
        forall|h: int, a: int|
            0 <= h < upto && 0 <= a < hs[h].len() ==> ((#[trigger] hs[h][a]) as int)
                < labels.len(),
        chunk_connected(hs, upto, x, y),
        0 <= x < labels.len(),
    ensures
        0 <= y < labels.len() && labels[x] == labels[y],
{
    let n = choose|n: nat| chunk_path(hs, upto, x, y, #[trigger] trigger_nat(n));
    lemma_complete_path(labels, hs, upto, x, y, n);
}

/// The path induction behind `lemma_complete_over_paths`.
proof fn lemma_complete_path(
    labels: Seq<usize>,
    hs: Seq<Seq<usize>>,
    upto: int,
    x: int,
    y: int,
    n: nat,
)
    requires
        labels_complete(labels, hs, upto),
        forall|h: int, a: int|
            0 <= h < upto && 0 <= a < hs[h].len() ==> ((#[trigger] hs[h][a]) as int)
                < labels.len(),
        chunk_path(hs, upto, x, y, n),
        0 <= x < labels.len(),
    ensures
        0 <= y < labels.len() && labels[x] == labels[y],
    decreases n,
{
    if x != y {
        let w = choose|w: int|
            #[trigger] chunk_step(hs, upto, x, w) && chunk_path(hs, upto, w, y, (n - 1) as nat);
        let (h, a, b) = choose|h: int, a: int, b: int|
            0 <= h < upto && 0 <= a < hs[h].len() && 0 <= b < hs[h].len() && (#[trigger] hs[h][a])
                as int == x && (#[trigger] hs[h][b]) as int == w;
        assert(labels[hs[h][a] as int] == labels[hs[h][b] as int]);
        lemma_complete_path(labels, hs, upto, w, y, (n - 1) as nat);
    }
}

/// The handles of a linear combination's terms.
pub open spec fn term_id_seq(terms: Seq<(usize, u128)>) -> Seq<usize> {
    Seq::new(terms.len(), |q: int| terms[q].0)
}

/// The connectivity chunks of the grouping: each constraint's own
/// oracle list, then one structural chunk per graph descriptor — a
/// shifted oracle with its inner, a linear combination with its terms,
/// and an empty chunk for every other kind.
pub open spec fn build_chunks(
    cs: Seq<UngroupedModel>,
    graph: Seq<crate::oracle::OracleModel>,
) -> Seq<Seq<usize>> {
    Seq::new(
        (cs.len() + graph.len()) as nat,
        |i: int|
            if i < cs.len() {
                cs[i].oracle_ids
            } else {
                match graph[i - cs.len()] {
                    crate::oracle::OracleModel::Shifted { inner, .. } => seq![
                        (i - cs.len()) as usize,
                        inner,
                    ],
                    crate::oracle::OracleModel::LinearCombination { terms, .. } => seq![
                        (i - cs.len()) as usize,
                    ] + term_id_seq(terms),
                    _ => Seq::<usize>::empty(),
                }
            },
    )
}

/// The grouping's success conditions: every constraint names at least
/// one registered oracle, every composition fits its oracle list, and
/// any two connected referenced oracles agree on their variable count.
pub open spec fn build_succeeds_on(
    cs: Seq<UngroupedModel>,
    graph: Seq<crate::oracle::OracleModel>,
) -> bool {
    let ch = build_chunks(cs, graph);
    &&& (forall|k: int| 0 <= k < cs.len() ==> (#[trigger] cs[k]).oracle_ids.len() > 0)
    &&& (forall|k: int, j: int|
        0 <= k < cs.len() && 0 <= j < cs[k].oracle_ids.len() ==> (
        #[trigger] cs[k].oracle_ids[j]) < graph.len())
    &&& (forall|k: int|
        0 <= k < cs.len() ==> (#[trigger] cs[k]).composition.spec_n_vars()
            <= cs[k].oracle_ids.len())
    &&& (forall|k1: int, j1: int, k2: int, j2: int|
        0 <= k1 < cs.len() && 0 <= j1 < cs[k1].oracle_ids.len() && 0 <= k2 < cs.len() && 0 <= j2
            < cs[k2].oracle_ids.len() && chunk_connected(
            ch,
            ch.len() as int,
            (#[trigger] cs[k1].oracle_ids[j1]) as int,
            (#[trigger] cs[k2].oracle_ids[j2]) as int,
        ) ==> model_n_vars(graph, cs[k1].oracle_ids[j1] as int) == model_n_vars(
            graph,
            cs[k2].oracle_ids[j2] as int,
        ))
}

/// Equal labels only arise from connectivity: any two nodes with one
/// label lie in one connected component of the first `upto` chunks.
pub open spec fn labels_sound(labels: Seq<usize>, hs: Seq<Seq<usize>>, upto: int) -> bool {
    forall|x: int, y: int|
        0 <= x < labels.len() && 0 <= y < labels.len() && (#[trigger] labels[x]) == (
        #[trigger] labels[y]) ==> chunk_connected(hs, upto, x, y)
}

/// Chunk-mates share a label: every pair of valid members of every
/// chunk carries one label.
pub open spec fn labels_complete(labels: Seq<usize>, chunks: Seq<Seq<usize>>, upto: int) -> bool {
    forall|h: int, a: int, b: int|
        0 <= h < upto && 0 <= a < chunks[h].len() && 0 <= b < chunks[h].len() && (
        #[trigger] chunks[h][a]) < labels.len() && (#[trigger] chunks[h][b]) < labels.len()
            ==> labels[chunks[h][a] as int] == labels[chunks[h][b] as int]
}

/// Computes a label per node such that the members of every chunk end
/// up with one label; labels stay below the node count.
#[verifier::loop_isolation(false)]
fn compute_labels(n: usize, chunks: &Vec<Vec<usize>>) -> (labels: Vec<usize>)
    ensures
        labels@.len() == n,
        forall|v: int| 0 <= v < n ==> (#[trigger] labels@[v]) < n,
        labels_complete(
            labels@,
            chunks@.map_values(|h: Vec<usize>| h@),
            chunks@.len() as int,
        ),
        labels_sound(
            labels@,
            chunks@.map_values(|h: Vec<usize>| h@),
            chunks@.len() as int,
        ),
{
    let ghost hs = chunks@.map_values(|h: Vec<usize>| h@);
    let mut labels: Vec<usize> = Vec::new();
    let mut v: usize = 0;
    while v < n
        invariant
            v <= n,
            labels@.len() == v,
            forall|q: int| 0 <= q < v ==> (#[trigger] labels@[q]) == q,
        decreases n - v,
    {
        labels.push(v);
        v = v + 1;
    }
    proof {
        assert forall|x: int, y: int|
            0 <= x < labels@.len() && 0 <= y < labels@.len() && (#[trigger] labels@[x]) == (
        #[trigger] labels@[y]) implies chunk_connected(hs, 0, x, y) by {
            assert(x == y);
            lemma_conn_refl(hs, 0, x);
        }
    }
    let mut h: usize = 0;
    while h < chunks.len()
        invariant
            h <= hs.len(),
            labels@.len() == n,
            forall|q: int| 0 <= q < n ==> (#[trigger] labels@[q]) < n,
            labels_complete(labels@, hs, h as int),
            labels_sound(labels@, hs, h as int),
        decreases hs.len() - h,
    {
        let chunk = &chunks[h];
        proof {
            assert(hs[h as int] == chunk@);
        }
        // Collect the labels of the chunk's valid members and their
        // minimum.
        let mut member_labels: Vec<usize> = Vec::new();
        let ghost mut member_nodes: Seq<int> = Seq::<int>::empty();
        let mut m: usize = n;
        let mut j: usize = 0;
        while j < chunk.len()
            invariant
                j <= chunk@.len(),
                forall|q: int|
                    0 <= q < j && (#[trigger] chunk@[q]) < n ==> member_labels@.contains(
                        labels@[chunk@[q] as int],
                    ),
                forall|q: int|
                    0 <= q < member_labels@.len() ==> m <= (#[trigger] member_labels@[q]),
                forall|q: int| 0 <= q < member_labels@.len() ==> (#[trigger] member_labels@[q]) < n,
                member_nodes.len() == member_labels@.len(),
                forall|q: int|
                    0 <= q < member_nodes.len() ==> 0 <= (#[trigger] member_nodes[q]) < n
                        && labels@[member_nodes[q]] == member_labels@[q] && chunk@.contains(
                        member_nodes[q] as usize,
                    ),
                member_labels@.len() == 0 ==> m == n,
                member_labels@.len() > 0 ==> member_labels@.contains(m) && m < n,
                m <= n,
            decreases chunk@.len() - j,
        {
            let u = chunk[j];
            if u < n {
                let l = labels[u];
                let ghost pre = member_labels@;
                let ghost m_pre = m;
                member_labels.push(l);
                proof {
                    member_nodes = member_nodes.push(u as int);
                    assert(chunk@[j as int] == u);
                    assert(chunk@.contains(u));
                }
                if l < m {
                    m = l;
                }
                proof {
                    assert(member_labels@.contains(m)) by {
                        if l < m_pre {
                            assert(member_labels@[member_labels@.len() - 1] == m);
                        } else {
                            assert(pre.len() > 0 ==> pre.contains(m));
                            if pre.len() == 0 {
                                assert(m_pre == n);
                                assert(l >= m_pre);
                                assert(false);
                            } else {
                                let w = choose|w: int| 0 <= w < pre.len() && pre[w] == m;
                                assert(member_labels@[w] == m);
                            }
                        }
                    }
                    assert forall|q: int|
                        0 <= q < j + 1 && (#[trigger] chunk@[q]) < n implies member_labels@.contains(
                        labels@[chunk@[q] as int],
                    ) by {
                        if q < j {
                            assert(pre.contains(labels@[chunk@[q] as int]));
                            let w = choose|w: int|
                                0 <= w < pre.len() && pre[w] == labels@[chunk@[q] as int];
                            assert(member_labels@[w] == labels@[chunk@[q] as int]);
                        } else {
                            assert(member_labels@[member_labels@.len() - 1] == labels@[chunk@[q]
                                as int]);
                        }
                    }
                }
            }
            j = j + 1;
        }
        if member_labels.len() > 0 {
            // Relabel every node whose label is one of the member
            // labels to the minimum.
            let ghost old_labels = labels@;
            let mut v: usize = 0;
            while v < n
                invariant
                    v <= n,
                    labels@.len() == n,
                    m < n,
                    forall|q: int|
                        v <= q < n ==> (#[trigger] labels@[q]) == old_labels[q],
                    forall|q: int|
                        0 <= q < v ==> (#[trigger] labels@[q]) == (if member_labels@.contains(
                            old_labels[q],
                        ) {
                            m
                        } else {
                            old_labels[q]
                        }),
                    forall|q: int| 0 <= q < n ==> (#[trigger] old_labels[q]) < n,
                decreases n - v,
            {
                if contains_id(&member_labels, labels[v]) {
                    labels.set(v, m);
                }
                v = v + 1;
            }
            proof {
                // Earlier chunks stay complete: relabelling is a
                // function of the old label.
                assert forall|hh: int, a: int, b: int|
                    0 <= hh < h + 1 && 0 <= a < hs[hh].len() && 0 <= b < hs[hh].len() && (
                    #[trigger] hs[hh][a]) < labels@.len() && (#[trigger] hs[hh][b])
                        < labels@.len() implies labels@[hs[hh][a] as int] == labels@[hs[hh][b]
                    as int] by {
                    let x = hs[hh][a] as int;
                    let y = hs[hh][b] as int;
                    if hh < h {
                        assert(old_labels[x] == old_labels[y]);
                    } else {
                        assert(hs[hh] == chunk@);
                        assert(member_labels@.contains(old_labels[x]));
                        assert(member_labels@.contains(old_labels[y]));
                    }
                }
                // Soundness: a new label equality merges only classes
                // whose old labels belong to this chunk's members, so
                // the nodes stay connected.
                assert forall|x: int, y: int|
                    0 <= x < labels@.len() && 0 <= y < labels@.len() && (#[trigger] labels@[x])
                        == (#[trigger] labels@[y]) implies chunk_connected(hs, h + 1, x, y) by {
                    if member_labels@.contains(old_labels[x]) && member_labels@.contains(
                        old_labels[y],
                    ) {
                        let qx = choose|q: int|
                            0 <= q < member_labels@.len() && member_labels@[q] == old_labels[x];
                        let qy = choose|q: int|
                            0 <= q < member_labels@.len() && member_labels@[q] == old_labels[y];
                        let ux = member_nodes[qx];
                        let uy = member_nodes[qy];
                        assert(old_labels[ux] == old_labels[x]);
                        assert(old_labels[uy] == old_labels[y]);
                        assert(chunk_connected(hs, h as int, x, ux));
                        assert(chunk_connected(hs, h as int, uy, y));
                        lemma_conn_mono(hs, h as int, h + 1, x, ux);
                        lemma_conn_mono(hs, h as int, h + 1, uy, y);
                        let ax = choose|a: int|
                            0 <= a < chunk@.len() && (#[trigger] chunk@[a]) == ux as usize;
                        let ay = choose|a: int|
                            0 <= a < chunk@.len() && (#[trigger] chunk@[a]) == uy as usize;
                        assert(hs[h as int][ax] as int == ux);
                        assert(hs[h as int][ay] as int == uy);
                        assert(chunk_step(hs, h + 1, ux, uy));
                        lemma_conn_step(hs, h + 1, ux, uy);
                        lemma_conn_trans(hs, h + 1, x, ux, uy);
                        lemma_conn_trans(hs, h + 1, x, uy, y);
                    } else if !member_labels@.contains(old_labels[x]) && !member_labels@.contains(
                        old_labels[y],
                    ) {
                        assert(old_labels[x] == old_labels[y]);
                        assert(chunk_connected(hs, h as int, x, y));
                        lemma_conn_mono(hs, h as int, h + 1, x, y);
                    } else if member_labels@.contains(old_labels[x]) {
                        // The other side would then carry the minimum,
                        // which is itself a member label.
                        assert(labels@[x] == m);
                        assert(old_labels[y] == m);
                        assert(member_labels@.contains(m));
                        assert(false);
                    } else {
                        assert(labels@[y] == m);
                        assert(old_labels[x] == m);
                        assert(member_labels@.contains(m));
                        assert(false);
                    }
                }
            }
        } else {
            proof {
                assert forall|hh: int, a: int, b: int|
                    0 <= hh < h + 1 && 0 <= a < hs[hh].len() && 0 <= b < hs[hh].len() && (
                    #[trigger] hs[hh][a]) < labels@.len() && (#[trigger] hs[hh][b])
                        < labels@.len() implies labels@[hs[hh][a] as int] == labels@[hs[hh][b]
                    as int] by {
                    if hh == h {
                        assert(hs[hh] == chunk@);
                        assert(member_labels@.contains(labels@[hs[hh][a] as int]));
                    }
                }
                assert forall|x: int, y: int|
                    0 <= x < labels@.len() && 0 <= y < labels@.len() && (#[trigger] labels@[x])
                        == (#[trigger] labels@[y]) implies chunk_connected(hs, h + 1, x, y) by {
                    assert(chunk_connected(hs, h as int, x, y));
                    lemma_conn_mono(hs, h as int, h + 1, x, y);
                }
            }
        }
        h = h + 1;
    }
    labels
}

/// On success every iff-condition of `build_one` holds.
proof fn lemma_build_one_iff(
    orig: Seq<UngroupedModel>,
    graph: Seq<crate::oracle::OracleModel>,
    m: ConstraintSetModel,
)
    requires
        forall|y: usize| m.oracle_ids.contains(y) <==> all_ids(orig, 0).contains(y),
        m.oracle_ids.len() > 0,
        forall|k: int|
            0 <= k < m.oracle_ids.len() ==> (#[trigger] m.oracle_ids[k]) < graph.len()
                && model_n_vars(graph, m.oracle_ids[k] as int) == m.n_vars,
        forall|k: int|
            0 <= k < orig.len() ==> ({
                let pos = spec_positions((#[trigger] orig[k]).oracle_ids, m.oracle_ids);
                pos is Some && orig[k].composition.spec_remap(pos->Some_0) is Ok
            }),
        m.oracle_ids.len() <= usize::MAX,
    ensures
        all_ids(orig, 0).len() > 0,
        forall|j: int| 0 <= j < all_ids(orig, 0).len() ==> (#[trigger] all_ids(orig, 0)[j])
            < graph.len(),
        forall|j1: int, j2: int|
            0 <= j1 < all_ids(orig, 0).len() && 0 <= j2 < all_ids(orig, 0).len() ==> model_n_vars(
                graph,
                #[trigger] all_ids(orig, 0)[j1] as int,
            ) == model_n_vars(graph, #[trigger] all_ids(orig, 0)[j2] as int),
        forall|k: int|
            0 <= k < orig.len() ==> (#[trigger] orig[k]).composition.spec_n_vars()
                <= orig[k].oracle_ids.len(),
{
    let u = all_ids(orig, 0);
    assert(m.oracle_ids.contains(m.oracle_ids[0]));
    assert(u.contains(m.oracle_ids[0]));
    let w0 = choose|w: int| 0 <= w < u.len() && u[w] == m.oracle_ids[0];
    assert(u.len() > 0);
    assert forall|j: int| 0 <= j < u.len() implies (#[trigger] u[j]) < graph.len()
        && model_n_vars(graph, u[j] as int) == m.n_vars by {
        assert(u.contains(u[j]));
        assert(m.oracle_ids.contains(u[j]));
        let w = choose|w: int| 0 <= w < m.oracle_ids.len() && m.oracle_ids[w] == u[j];
    }
    assert forall|k: int|
        0 <= k < orig.len() implies (#[trigger] orig[k]).composition.spec_n_vars()
        <= orig[k].oracle_ids.len() by {
        let pos = spec_positions(orig[k].oracle_ids, m.oracle_ids);
        lemma_positions_char(orig[k].oracle_ids, m.oracle_ids);
        lemma_remap_ok_iff(orig[k].composition, pos->Some_0);
    }
}


} // verus!
