//! The constraint system: everything that constrains witness data.
//!
//! A system bundles the oracle graph, the per-table polynomial
//! constraint sets, the oracles asserted nowhere zero, and the channel
//! flushes, together with the highest channel id in use.
use vstd::prelude::*;

use crate::channel::{Flush, FlushModel};
use crate::constraint::{ConstraintSet, ConstraintSetModel};
use crate::oracle::{MultilinearOracleSet, OracleId, OracleModel};

verus! {

/// The mathematical value of a constraint system.
pub ghost struct ConstraintSystemModel {
    pub oracles: Seq<OracleModel>,
    pub table_constraints: Seq<ConstraintSetModel>,
    pub non_zero_oracle_ids: Seq<usize>,
    pub flushes: Seq<FlushModel>,
    pub max_channel_id: usize,
}

/// The three ways witness data is constrained: virtual oracles,
/// polynomial constraints and channel flushes, with the channel range.
#[derive(Debug)]
pub struct ConstraintSystem {
    pub oracles: MultilinearOracleSet,
    pub table_constraints: Vec<ConstraintSet>,
    pub non_zero_oracle_ids: Vec<OracleId>,
    pub flushes: Vec<Flush>,
    pub max_channel_id: usize,
}

impl View for ConstraintSystem {
    type V = ConstraintSystemModel;

    open spec fn view(&self) -> ConstraintSystemModel {
        ConstraintSystemModel {
            oracles: self.oracles@,
            table_constraints: self.table_constraints@.map_values(|cs: ConstraintSet| cs@),
            non_zero_oracle_ids: self.non_zero_oracle_ids@,
            flushes: self.flushes@.map_values(|f: Flush| f@),
            max_channel_id: self.max_channel_id,
        }
    }
}

impl ConstraintSystem {
    /// The system itself: base constraints are already part of it.
    pub fn no_base_constraints(self) -> (r: ConstraintSystem)
        ensures
            r@ == self@,
    {
        self
    }
}

/// The mathematical value of a serialized proof.
pub ghost struct ProofModel {
    pub transcript: Seq<u8>,
    pub advice: Seq<u8>,
}

/// A constraint-system proof serialized into bytes: the Fiat-Shamir
/// transcript stream and the un-hashed advice stream read beside it.
#[derive(Debug, Clone, PartialEq, Eq)]
pub struct Proof {
    pub transcript: Vec<u8>,
    pub advice: Vec<u8>,
}

impl View for Proof {
    type V = ProofModel;

    open spec fn view(&self) -> ProofModel {
        ProofModel { transcript: self.transcript@, advice: self.advice@ }
    }
}

impl Proof {
    /// The byte size of the proof's transcript stream.
    pub fn get_proof_size(&self) -> (r: usize)
        ensures
            r == self@.transcript.len(),
    {
        self.transcript.len()
    }
}

} // verus!
