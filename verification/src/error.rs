//! Error taxonomy of the constraint system.
//!
//! Structural errors arise at circuit-construction time and are fatal;
//! channel errors arise while validating a witness or building flush
//! oracles; verification errors represent genuine proof rejection and
//! are never recovered from.
use vstd::prelude::*;

verus! {

/// A proof-rejection outcome: the proof is invalid for the stated reason.
#[derive(Debug, Clone, Copy, PartialEq, Eq, Structural)]
pub enum VerificationError {
    /// A channel's pull product does not equal its push product.
    ChannelUnbalanced { id: usize },
    /// The number of claimed flush products differs from the number of flushes.
    IncorrectNumberOfFlushProducts,
    /// A claimed evaluation of an equality-indicator oracle is wrong.
    IncorrectEqIndEvaluation,
    /// A claimed evaluation of another transparent oracle is wrong.
    IncorrectTransparentEvaluation,
    /// The transcript stream holds unread trailing bytes.
    UnconsumedTranscriptBytes,
    /// The advice stream holds unread trailing bytes.
    UnconsumedAdviceBytes,
}

/// Any failure of the constraint-system layer.
#[derive(Debug, Clone, Copy, PartialEq, Eq, Structural)]
pub enum Error {
    /// An oracle handle does not refer to a registered oracle.
    InvalidOracleId { id: usize },
    /// An oracle's variable count differs from the required one.
    IncorrectNumberOfVariables { expected: usize },
    /// Packing would remove more variables than the inner oracle has.
    NotEnoughVarsForPacking { n_vars: usize, log_degree: usize },
    /// A projection fixes more variables than the inner oracle has.
    InvalidProjection { n_vars: usize, values_len: usize },
    /// A transparent polynomial's values exceed the field's tower height.
    TowerLevelTooHigh { tower_level: usize },
    /// A derived oracle's variable count exceeds the machine word.
    TooManyVariables { n_vars: usize },
    /// A shift's block size exceeds the inner oracle's variable count.
    InvalidBlockSize { n_vars: usize },
    /// A shift offset is zero or not less than the block's size.
    InvalidShiftOffset { max_shift_offset: usize, shift_offset: usize },
    /// A transparent polynomial was queried with the wrong point arity.
    IncorrectQuerySize { expected: usize },
    /// A constraint set references no oracles at all.
    EmptyConstraintSet,
    /// Oracles of one constraint group disagree on their variable count.
    ConstraintSetNvarsMismatch { expected: usize, got: usize },
    /// A variable remapping does not cover the expression's variables.
    IncorrectArgumentLength { expected: usize },
    /// A composition's total degree exceeds the machine word.
    DegreeTooLarge,
    /// A constant does not fit the bit width of the target subfield.
    NotInSubfield { value: u128 },
    /// A channel id exceeds the declared maximum.
    ChannelIdOutOfRange { max: usize, got: usize },
    /// A flushed tuple's width differs from the channel's fixed width.
    ChannelFlushWidthMismatch { expected: usize, got: usize },
    /// Oracles of one flush disagree on their variable count.
    ChannelFlushNvarsMismatch { expected: usize, got: usize },
    /// A flush engages more rows than the oracle's hypercube holds.
    FlushCountExceedsOracleSize { id: usize, count: usize },
    /// A flush references no oracles at all.
    EmptyFlushOracles,
    /// A tuple's net multiplicity left the machine's signed range.
    MultiplicityOverflow,
    /// No witness column is registered for the oracle.
    MissingWitness { id: usize },
    /// A non-zero-asserted oracle has a zero grand product.
    Zeros,
    /// A committed batch has no, or more than one, evaluation claim.
    UnconstrainedBatch { batch_id: usize },
    /// A byte stream does not hold a well-formed encoding.
    InvalidEncoding,
    /// A sub-protocol collaborator failed or is not available.
    SubProtocol,
    /// The proof is rejected.
    Verification(VerificationError),
}

} // verus!
