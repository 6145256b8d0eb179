//! The witness index: the multilinear evaluation table behind each
//! oracle handle, used for proving and for exact witness validation.
//!
//! A column holds the oracle's evaluations over its whole hypercube as
//! plain field values, indexed by vertex number.
use vstd::arithmetic::power2::pow2;
use vstd::prelude::*;

use crate::error::Error;
use crate::oracle::OracleId;

verus! {

/// The mathematical value of a witness column.
pub ghost struct WitnessColumnModel {
    /// The column's variable count.
    pub n_vars: usize,
    /// The evaluations over the hypercube, one per vertex.
    pub evals: Seq<u128>,
}

/// One oracle's evaluations over its hypercube.
#[derive(Debug, Clone, PartialEq, Eq)]
pub struct WitnessColumn {
    /// The column's variable count.
    pub n_vars: usize,
    /// The evaluations over the hypercube, one per vertex.
    pub evals: Vec<u128>,
}

impl View for WitnessColumn {
    type V = WitnessColumnModel;

    open spec fn view(&self) -> WitnessColumnModel {
        WitnessColumnModel { n_vars: self.n_vars, evals: self.evals@ }
    }
}

impl WitnessColumnModel {
    /// A column is well-formed when it holds one value per vertex.
    pub open spec fn wf(self) -> bool {
        self.evals.len() == pow2(self.n_vars as nat)
    }
}

impl WitnessColumn {
    /// A column over `n_vars` variables holding the given evaluations,
    /// which must cover the hypercube exactly.
    pub fn new(n_vars: usize, evals: Vec<u128>) -> (r: Result<WitnessColumn, Error>)
        ensures
            evals@.len() == pow2(n_vars as nat) ==> (r matches Ok(c) && c@
                == (WitnessColumnModel { n_vars, evals: evals@ }) && c@.wf()),
            evals@.len() != pow2(n_vars as nat) ==> r == Err::<WitnessColumn, Error>(
                Error::IncorrectQuerySize { expected: n_vars },
            ),
    {
        let ok: bool;
        let len = evals.len();
        if n_vars >= 64 {
            proof {
                vstd::arithmetic::power2::lemma2_to64();
                vstd::arithmetic::power2::lemma2_to64_rest();
                if n_vars > 64 {
                    vstd::arithmetic::power2::lemma_pow2_strictly_increases(64, n_vars as nat);
                }
                assert(len <= usize::MAX);
            }
            ok = false;
        } else {
            let cap: u64 = 1u64 << (n_vars as u64);
            proof {
                vstd::bits::lemma_u64_pow2_no_overflow(n_vars as nat);
                vstd::bits::lemma_u64_shl_is_mul(1u64, n_vars as u64);
            }
            ok = (evals.len() as u64) == cap;
        }
        proof {
            if n_vars >= 64 {
                assert(evals@.len() < pow2(n_vars as nat));
            }
        }
        if ok {
            Ok(WitnessColumn { n_vars, evals })
        } else {
            Err(Error::IncorrectQuerySize { expected: n_vars })
        }
    }

    /// The column's evaluation at one hypercube vertex.
    pub fn evaluate_on_hypercube(&self, index: usize) -> (r: Result<u128, Error>)
        ensures
            index < self@.evals.len() ==> r == Ok::<u128, Error>(self@.evals[index as int]),
            index >= self@.evals.len() ==> r == Err::<u128, Error>(
                Error::IncorrectQuerySize { expected: self.n_vars },
            ),
    {
        if index < self.evals.len() {
            Ok(self.evals[index])
        } else {
            Err(Error::IncorrectQuerySize { expected: self.n_vars })
        }
    }

    /// An equal copy of the column.
    pub fn duplicate(&self) -> (r: WitnessColumn)
        ensures
            r@ == self@,
    {
        let mut evals: Vec<u128> = Vec::new();
        let mut i: usize = 0;
        while i < self.evals.len()
            invariant
                i <= self.evals@.len(),
                evals@ == self.evals@.take(i as int),
            decreases self.evals@.len() - i,
        {
            evals.push(self.evals[i]);
            proof {
                assert(evals@ == self.evals@.take(i as int + 1));
            }
            i = i + 1;
        }
        proof {
            assert(self.evals@.take(self.evals@.len() as int) == self.evals@);
        }
        WitnessColumn { n_vars: self.n_vars, evals }
    }
}

/// Maps oracle handles to their multilinear evaluation tables.
#[derive(Debug)]
pub struct MultilinearExtensionIndex {
    entries: Vec<Option<WitnessColumn>>,
}

impl View for MultilinearExtensionIndex {
    type V = Seq<Option<WitnessColumnModel>>;

    closed spec fn view(&self) -> Seq<Option<WitnessColumnModel>> {
        self.entries@.map_values(
            |e: Option<WitnessColumn>|
                match e {
                    Some(c) => Some(c@),
                    None => None,
                },
        )
    }
}

/// The witness model's entry for a handle, if one is registered.
pub open spec fn witness_entry(w: Seq<Option<WitnessColumnModel>>, id: int) -> Option<
    WitnessColumnModel,
> {
    if 0 <= id < w.len() {
        w[id]
    } else {
        None
    }
}

impl MultilinearExtensionIndex {
    /// An empty witness index.
    pub fn new() -> (r: Self)
        ensures
            r@ == Seq::<Option<WitnessColumnModel>>::empty(),
    {
        let r = MultilinearExtensionIndex { entries: Vec::new() };
        proof {
            assert(r@ =~= Seq::<Option<WitnessColumnModel>>::empty());
        }
        r
    }

    /// Whether the index holds data for the given oracle handle.
    pub fn has(&self, id: OracleId) -> (r: bool)
        ensures
            r == (witness_entry(self@, id as int) is Some),
    {
        if id < self.entries.len() {
            match &self.entries[id] {
                Some(_) => true,
                None => false,
            }
        } else {
            false
        }
    }

    /// The column registered for a handle.
    pub fn get_multilin_poly(&self, id: OracleId) -> (r: Result<&WitnessColumn, Error>)
        ensures
            match witness_entry(self@, id as int) {
                Some(c) => r matches Ok(col) && col@ == c,
                None => r == Err::<&WitnessColumn, Error>(Error::MissingWitness { id }),
            },
    {
        if id < self.entries.len() {
            match &self.entries[id] {
                Some(c) => Ok(c),
                None => Err(Error::MissingWitness { id }),
            }
        } else {
            Err(Error::MissingWitness { id })
        }
    }

    /// Registers or replaces the column behind a handle, growing the
    /// index as needed.
    pub fn update_multilin_poly(&mut self, id: OracleId, column: WitnessColumn) -> (r: Result<
        (),
        Error,
    >)
        requires
            id < usize::MAX,
        ensures
            r is Ok,
            final(self)@.len() == vstd::math::max(old(self)@.len() as int, id as int + 1),
            witness_entry(final(self)@, id as int) == Some(column@),
            forall|j: int|
                0 <= j < final(self)@.len() && j != id ==> witness_entry(final(self)@, j)
                    == witness_entry(old(self)@, j),
    {
        let ghost w0 = self@;
        while self.entries.len() < id + 1
            invariant
                id < usize::MAX,
                self@.len() == self.entries@.len(),
                self@.len() >= w0.len(),
                self@.len() <= vstd::math::max(w0.len() as int, id as int + 1),
                forall|j: int| 0 <= j < w0.len() ==> self@[j] == w0[j],
                forall|j: int| w0.len() <= j < self@.len() ==> self@[j] is None,
            decreases id + 1 - self.entries.len(),
        {
            let ghost pre = self@;
            self.entries.push(None);
            proof {
                assert(self@ =~= pre.push(None));
            }
        }
        let ghost pre = self@;
        self.entries.set(id, Some(column));
        proof {
            assert(self@ =~= pre.update(id as int, Some(column@)));
        }
        Ok(())
    }
}

} // verus!
