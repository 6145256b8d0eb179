use binius_cs::channel::{validate_witness, Boundary, Flush, FlushDirection};
use binius_cs::error::{Error, VerificationError};
use binius_cs::witness::{MultilinearExtensionIndex, WitnessColumn};

fn tri(n: u128) -> u128 {
    n * (n + 1) / 2
}

/// A running-sum table: one pull flush reads rows `(n, n(n+1)/2)` for
/// `n` in `0..8` and one push flush writes the rows for `n` in `1..=8`,
/// with the initial and terminating tuples supplied as boundaries.
fn running_sum_witness(tamper: bool) -> (MultilinearExtensionIndex, Vec<Flush>, Vec<Boundary>) {
    let mut witness = MultilinearExtensionIndex::new();
    let pull_n: Vec<u128> = (0..8).collect();
    let pull_t: Vec<u128> = (0..8).map(tri).collect();
    let push_n: Vec<u128> = (1..9).collect();
    let mut push_t: Vec<u128> = (1..9).map(tri).collect();
    if tamper {
        // Break the running-sum invariant in one intermediate row.
        push_t[3] ^= 1;
    }
    witness
        .update_multilin_poly(0, WitnessColumn::new(3, pull_n).unwrap())
        .unwrap();
    witness
        .update_multilin_poly(1, WitnessColumn::new(3, pull_t).unwrap())
        .unwrap();
    witness
        .update_multilin_poly(2, WitnessColumn::new(3, push_n).unwrap())
        .unwrap();
    witness
        .update_multilin_poly(3, WitnessColumn::new(3, push_t).unwrap())
        .unwrap();
    let flushes = vec![
        Flush {
            oracles: vec![0, 1],
            channel_id: 0,
            direction: FlushDirection::Pull,
            count: 8,
            multiplicity: 1,
        },
        Flush {
            oracles: vec![2, 3],
            channel_id: 0,
            direction: FlushDirection::Push,
            count: 8,
            multiplicity: 1,
        },
    ];
    let boundaries = vec![
        Boundary {
            values: vec![8, 36],
            channel_id: 0,
            direction: FlushDirection::Pull,
            multiplicity: 1,
        },
        Boundary {
            values: vec![0, 0],
            channel_id: 0,
            direction: FlushDirection::Push,
            multiplicity: 1,
        },
    ];
    (witness, flushes, boundaries)
}

#[test]
fn running_sum_channel_validates() {
    let (witness, flushes, boundaries) = running_sum_witness(false);
    assert!(validate_witness(&witness, &flushes, &boundaries, 0).is_ok());
}

#[test]
fn tampered_running_sum_is_unbalanced() {
    let (witness, flushes, boundaries) = running_sum_witness(true);
    assert_eq!(
        validate_witness(&witness, &flushes, &boundaries, 0),
        Err(Error::Verification(VerificationError::ChannelUnbalanced {
            id: 0
        }))
    );
}

#[test]
fn channel_id_out_of_range_is_reported() {
    let (witness, flushes, mut boundaries) = running_sum_witness(false);
    boundaries[0].channel_id = 3;
    assert_eq!(
        validate_witness(&witness, &flushes, &boundaries, 0),
        Err(Error::ChannelIdOutOfRange { max: 0, got: 3 })
    );
}

#[test]
fn flush_width_mismatch_is_reported() {
    let (witness, flushes, mut boundaries) = running_sum_witness(false);
    boundaries[1].values = vec![0, 0, 0];
    assert_eq!(
        validate_witness(&witness, &flushes, &boundaries, 0),
        Err(Error::ChannelFlushWidthMismatch {
            expected: 2,
            got: 3
        })
    );
}

#[test]
fn missing_witness_is_reported() {
    let (witness, mut flushes, boundaries) = running_sum_witness(false);
    flushes[0].oracles = vec![0, 9];
    assert_eq!(
        validate_witness(&witness, &flushes, &boundaries, 0),
        Err(Error::MissingWitness { id: 9 })
    );
}

#[test]
fn flush_count_exceeding_domain_is_reported() {
    let (witness, mut flushes, boundaries) = running_sum_witness(false);
    flushes[0].count = 9;
    assert_eq!(
        validate_witness(&witness, &flushes, &boundaries, 0),
        Err(Error::FlushCountExceedsOracleSize { id: 0, count: 9 })
    );
}

#[test]
fn flush_nvars_mismatch_is_reported() {
    let (mut witness, flushes, boundaries) = running_sum_witness(false);
    witness
        .update_multilin_poly(1, WitnessColumn::new(2, vec![0, 1, 3, 6]).unwrap())
        .unwrap();
    assert_eq!(
        validate_witness(&witness, &flushes, &boundaries, 0),
        Err(Error::ChannelFlushNvarsMismatch {
            expected: 3,
            got: 2
        })
    );
}

#[test]
fn empty_flush_contributes_nothing() {
    let witness = MultilinearExtensionIndex::new();
    let flushes = vec![Flush {
        oracles: vec![],
        channel_id: 0,
        direction: FlushDirection::Push,
        count: 4,
        multiplicity: 1,
    }];
    assert!(validate_witness(&witness, &flushes, &vec![], 0).is_ok());
}

#[test]
fn multiplicities_scale_tuples() {
    // One push of multiplicity two cancels two separate pulls.
    let mut witness = MultilinearExtensionIndex::new();
    witness
        .update_multilin_poly(0, WitnessColumn::new(0, vec![5]).unwrap())
        .unwrap();
    let flushes = vec![
        Flush {
            oracles: vec![0],
            channel_id: 0,
            direction: FlushDirection::Push,
            count: 1,
            multiplicity: 2,
        },
        Flush {
            oracles: vec![0],
            channel_id: 0,
            direction: FlushDirection::Pull,
            count: 1,
            multiplicity: 1,
        },
    ];
    let boundaries = vec![Boundary {
        values: vec![5],
        channel_id: 0,
        direction: FlushDirection::Pull,
        multiplicity: 1,
    }];
    assert!(validate_witness(&witness, &flushes, &boundaries, 0).is_ok());
}
