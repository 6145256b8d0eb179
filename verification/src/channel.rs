//! Channels: the cross-table multiset consistency argument.
//!
//! A channel is an unordered bag of row tuples. Tables push tuples in
//! and pull tuples out; the witness is consistent when, per channel,
//! every tuple's pushes and pulls cancel exactly. Column order inside a
//! tuple is fixed, and a channel's tuple width is fixed by its first
//! use.
use vstd::arithmetic::power2::pow2;
use vstd::prelude::*;

use crate::error::{Error, VerificationError};
use crate::oracle::OracleId;
use crate::witness::{MultilinearExtensionIndex, WitnessColumnModel, witness_entry};

verus! {

/// Whether a flush pushes tuples into a channel or pulls them out.
#[derive(Debug, Clone, Copy, PartialEq, Eq, Structural)]
pub enum FlushDirection {
    Push,
    Pull,
}

/// The mathematical value of a flush.
pub ghost struct FlushModel {
    pub oracles: Seq<usize>,
    pub channel_id: usize,
    pub direction: FlushDirection,
    pub count: usize,
    pub multiplicity: u64,
}

/// A table's flush: the first `count` rows of the named oracle columns,
/// pushed to or pulled from a channel with a multiplicity.
#[derive(Debug, Clone)]
pub struct Flush {
    pub oracles: Vec<OracleId>,
    pub channel_id: usize,
    pub direction: FlushDirection,
    pub count: usize,
    pub multiplicity: u64,
}

impl View for Flush {
    type V = FlushModel;

    open spec fn view(&self) -> FlushModel {
        FlushModel {
            oracles: self.oracles@,
            channel_id: self.channel_id,
            direction: self.direction,
            count: self.count,
            multiplicity: self.multiplicity,
        }
    }
}

/// The mathematical value of a boundary.
pub ghost struct BoundaryModel {
    pub values: Seq<u128>,
    pub channel_id: usize,
    pub direction: FlushDirection,
    pub multiplicity: u64,
}

/// A fixed row tuple known to the verifier, pushed to or pulled from a
/// channel: public inputs and outputs.
#[derive(Debug, Clone)]
pub struct Boundary {
    pub values: Vec<u128>,
    pub channel_id: usize,
    pub direction: FlushDirection,
    pub multiplicity: u64,
}

impl View for Boundary {
    type V = BoundaryModel;

    open spec fn view(&self) -> BoundaryModel {
        BoundaryModel {
            values: self.values@,
            channel_id: self.channel_id,
            direction: self.direction,
            multiplicity: self.multiplicity,
        }
    }
}

/// The mathematical state of one channel: the fixed tuple width, once
/// known, and the net multiplicity of every observed tuple. Distinct
/// entries hold distinct tuples.
pub ghost struct ChannelModel {
    pub width: Option<usize>,
    pub entries: Seq<(Seq<u128>, int)>,
}

/// The ledger of one channel while a witness is replayed.
#[derive(Debug)]
pub struct Channel {
    width: Option<usize>,
    entries: Vec<(Vec<u128>, i128)>,
}

impl View for Channel {
    type V = ChannelModel;

    closed spec fn view(&self) -> ChannelModel {
        ChannelModel {
            width: self.width,
            entries: self.entries@.map_values(|p: (Vec<u128>, i128)| (p.0@, p.1 as int)),
        }
    }
}

/// The first position holding `key` among entries `i..`, or `-1`.
pub open spec fn spec_find(entries: Seq<(Seq<u128>, int)>, key: Seq<u128>, i: int) -> int
    decreases entries.len() - i,
{
    if i < 0 || i >= entries.len() {
        -1
    } else if entries[i].0 == key {
        i
    } else {
        spec_find(entries, key, i + 1)
    }
}

/// The channel state after one flush of `values`: the width is pinned
/// on first use and the tuple's net multiplicity moves by plus or minus
/// `multiplicity`. A tuple count beyond the machine's signed range is
/// an error.
pub open spec fn spec_channel_flush(
    ch: ChannelModel,
    direction: FlushDirection,
    multiplicity: u64,
    values: Seq<u128>,
) -> Result<ChannelModel, Error> {
    if ch.width matches Some(w) && w != values.len() {
        Err(Error::ChannelFlushWidthMismatch { expected: ch.width->0, got: values.len() as usize })
    } else {
        let delta: int = if direction is Push {
            multiplicity as int
        } else {
            -(multiplicity as int)
        };
        let idx = spec_find(ch.entries, values, 0);
        if idx >= 0 {
            let c = ch.entries[idx].1 + delta;
            if c < i128::MIN || c > i128::MAX {
                Err(Error::MultiplicityOverflow)
            } else {
                Ok(
                    ChannelModel {
                        width: Some(values.len() as usize),
                        entries: ch.entries.update(idx, (values, c)),
                    },
                )
            }
        } else {
            Ok(
                ChannelModel {
                    width: Some(values.len() as usize),
                    entries: ch.entries.push((values, delta)),
                },
            )
        }
    }
}

/// A channel is balanced when every observed tuple's net multiplicity
/// is zero.
pub open spec fn spec_balanced(ch: ChannelModel) -> bool {
    forall|j: int| 0 <= j < ch.entries.len() ==> (#[trigger] ch.entries[j]).1 == 0
}

impl ChannelModel {
    /// The net multiplicity of a tuple: pushes count positively, pulls
    /// negatively, and unobserved tuples are at zero.
    pub open spec fn net_multiplicity(self, tuple: Seq<u128>) -> int {
        let idx = spec_find(self.entries, tuple, 0);
        if idx >= 0 {
            self.entries[idx].1
        } else {
            0
        }
    }

    /// Distinct ledger entries hold distinct tuples.
    pub open spec fn wf(self) -> bool {
        forall|i: int, j: int|
            0 <= i < j < self.entries.len() ==> (#[trigger] self.entries[i]).0 != (
            #[trigger] self.entries[j]).0
    }
}

/// Flushing keeps the ledger's tuples distinct.
pub proof fn lemma_flush_preserves_wf(
    ch: ChannelModel,
    direction: FlushDirection,
    multiplicity: u64,
    values: Seq<u128>,
)
    requires
        ch.wf(),
        spec_channel_flush(ch, direction, multiplicity, values) is Ok,
    ensures
        spec_channel_flush(ch, direction, multiplicity, values)->Ok_0.wf(),
{
    let m = spec_channel_flush(ch, direction, multiplicity, values)->Ok_0;
    let idx = spec_find(ch.entries, values, 0);
    if idx >= 0 {
        lemma_find_in_range(ch.entries, values, 0);
    } else {
        assert forall|i: int, j: int| 0 <= i < j < m.entries.len() implies (
        #[trigger] m.entries[i]).0 != (#[trigger] m.entries[j]).0 by {
            if j == m.entries.len() - 1 && m.entries[i].0 == values {
                lemma_find_locates(ch.entries, values, 0, i);
            }
        }
    }
}

/// A balanced channel holds every tuple at net multiplicity zero, and
/// conversely.
pub proof fn lemma_balanced_iff_all_zero(ch: ChannelModel)
    requires
        ch.wf(),
    ensures
        spec_balanced(ch) <==> (forall|t: Seq<u128>| ch.net_multiplicity(t) == 0),
{
    if spec_balanced(ch) {
        assert forall|t: Seq<u128>| ch.net_multiplicity(t) == 0 by {
            let idx = spec_find(ch.entries, t, 0);
            if idx >= 0 {
                lemma_find_in_range(ch.entries, t, 0);
            }
        }
    } else {
        let j = choose|j: int| 0 <= j < ch.entries.len() && (#[trigger] ch.entries[j]).1 != 0;
        let t = ch.entries[j].0;
        lemma_find_locates(ch.entries, t, 0, j);
        let idx = spec_find(ch.entries, t, 0);
        lemma_find_in_range(ch.entries, t, 0);
        assert(idx == j);
        assert(ch.net_multiplicity(t) != 0);
    }
}

/// A successful find returns a position holding the key.
pub proof fn lemma_find_in_range(entries: Seq<(Seq<u128>, int)>, key: Seq<u128>, i: int)
    requires
        spec_find(entries, key, i) >= 0,
    ensures
        i <= spec_find(entries, key, i) < entries.len(),
        entries[spec_find(entries, key, i)].0 == key,
    decreases entries.len() - i,
{
    if !(i < 0 || i >= entries.len()) && entries[i].0 != key {
        lemma_find_in_range(entries, key, i + 1);
    }
}

/// If some position at or after `i` holds the key, the find succeeds.
pub proof fn lemma_find_locates(entries: Seq<(Seq<u128>, int)>, key: Seq<u128>, i: int, j: int)
    requires
        i <= j < entries.len(),
        0 <= i,
        entries[j].0 == key,
    ensures
        spec_find(entries, key, i) >= 0,
    decreases entries.len() - i,
{
    if entries[i].0 != key && i < j {
        lemma_find_locates(entries, key, i + 1, j);
    }
}

impl Channel {
    /// An empty channel with no fixed width.
    pub fn new() -> (r: Self)
        ensures
            r@ == (ChannelModel { width: None, entries: Seq::<(Seq<u128>, int)>::empty() }),
    {
        let r = Channel { width: None, entries: Vec::new() };
        proof {
            assert(r@.entries =~= Seq::<(Seq<u128>, int)>::empty());
        }
        r
    }

    /// Records one flush of a tuple into the channel.
    pub fn flush(&mut self, direction: FlushDirection, multiplicity: u64, values: Vec<u128>) -> (r:
        Result<(), Error>)
        ensures
            match spec_channel_flush(old(self)@, direction, multiplicity, values@) {
                Ok(m) => r is Ok && final(self)@ == m,
                Err(e) => r == Err::<(), Error>(e) && final(self)@ == old(self)@,
            },
    {
        match self.width {
            Some(w) => {
                if w != values.len() {
                    return Err(
                        Error::ChannelFlushWidthMismatch { expected: w, got: values.len() },
                    );
                }
            },
            None => {},
        }
        let delta: i128 = if matches!(direction, FlushDirection::Push) {
            multiplicity as i128
        } else {
            -(multiplicity as i128)
        };
        let idx_opt = self.find(&values);
        match idx_opt {
            Some(idx) => {
                proof {
                    lemma_find_in_range(self@.entries, values@, 0);
                }
                let c = self.entries[idx].1;
                let no_overflow: bool = if delta >= 0 {
                    c <= i128::MAX - delta
                } else {
                    c >= i128::MIN - delta
                };
                if !no_overflow {
                    return Err(Error::MultiplicityOverflow);
                }
                let key_copy = copy_vals(&self.entries[idx].0);
                let ghost pre = self@;
                self.entries.set(idx, (key_copy, c + delta));
                self.width = Some(values.len());
                proof {
                    let m = spec_channel_flush(pre, direction, multiplicity, values@)->Ok_0;
                    assert(self@.entries =~= m.entries);
                }
            },
            None => {
                let ghost pre = self@;
                let w = values.len();
                self.entries.push((values, delta));
                self.width = Some(w);
                proof {
                    let m = spec_channel_flush(pre, direction, multiplicity, values@)->Ok_0;
                    assert(self@.entries =~= m.entries);
                }
            },
        }
        Ok(())
    }

    /// The first ledger position holding the tuple, if any.
    fn find(&self, key: &Vec<u128>) -> (r: Option<usize>)
        ensures
            match r {
                Some(idx) => spec_find(self@.entries, key@, 0) == idx,
                None => spec_find(self@.entries, key@, 0) == -1,
            },
    {
        let mut i: usize = 0;
        while i < self.entries.len()
            invariant
                i <= self@.entries.len(),
                spec_find(self@.entries, key@, 0) == spec_find(self@.entries, key@, i as int),
            decreases self@.entries.len() - i,
        {
            if vals_eq(&self.entries[i].0, key) {
                return Some(i);
            }
            i = i + 1;
        }
        None
    }

    /// Whether every observed tuple's net multiplicity is zero.
    pub fn is_balanced(&self) -> (r: bool)
        ensures
            r == spec_balanced(self@),
    {
        let mut i: usize = 0;
        while i < self.entries.len()
            invariant
                i <= self@.entries.len(),
                forall|j: int| 0 <= j < i ==> (#[trigger] self@.entries[j]).1 == 0,
            decreases self@.entries.len() - i,
        {
            if self.entries[i].1 != 0 {
                proof {
                    assert((self@.entries[i as int]).1 != 0);
                }
                return false;
            }
            i = i + 1;
        }
        true
    }
}

/// Whether two tuples hold the same values.
fn vals_eq(a: &Vec<u128>, b: &Vec<u128>) -> (r: bool)
    ensures
        r == (a@ == b@),
{
    if a.len() != b.len() {
        proof {
            assert(a@ != b@);
        }
        return false;
    }
    let mut i: usize = 0;
    while i < a.len()
        invariant
            i <= a@.len(),
            a@.len() == b@.len(),
            forall|j: int| 0 <= j < i ==> a@[j] == b@[j],
        decreases a@.len() - i,
    {
        if a[i] != b[i] {
            return false;
        }
        i = i + 1;
    }
    proof {
        assert(a@ =~= b@);
    }
    true
}

impl Flush {
    /// An equal copy of the flush.
    pub fn duplicate(&self) -> (r: Flush)
        ensures
            r@ == self@,
    {
        Flush {
            oracles: copy_ids_list(&self.oracles),
            channel_id: self.channel_id,
            direction: self.direction,
            count: self.count,
            multiplicity: self.multiplicity,
        }
    }
}

/// A copy of a list of oracle handles.
fn copy_ids_list(v: &Vec<usize>) -> (r: Vec<usize>)
    ensures
        r@ == v@,
{
    let mut out: Vec<usize> = Vec::new();
    let mut i: usize = 0;
    while i < v.len()
        invariant
            i <= v@.len(),
            out@ == v@.take(i as int),
        decreases v@.len() - i,
    {
        out.push(v[i]);
        proof {
            assert(out@ == v@.take(i as int + 1));
        }
        i = i + 1;
    }
    proof {
        assert(v@.take(v@.len() as int) == v@);
    }
    out
}

/// The first boundary whose channel id exceeds the maximum, if any.
pub open spec fn spec_boundary_ids_ok(bs: Seq<BoundaryModel>, max: usize, i: int) -> Result<
    (),
    Error,
>
    decreases bs.len() - i,
{
    if i < 0 || i >= bs.len() {
        Ok(())
    } else if bs[i].channel_id > max {
        Err(Error::ChannelIdOutOfRange { max, got: bs[i].channel_id })
    } else {
        spec_boundary_ids_ok(bs, max, i + 1)
    }
}

/// The first oracle of the flush without a registered witness column.
pub open spec fn spec_polys_present(
    w: Seq<Option<WitnessColumnModel>>,
    oracles: Seq<usize>,
    j: int,
) -> Result<(), Error>
    decreases oracles.len() - j,
{
    if j < 0 || j >= oracles.len() {
        Ok(())
    } else if witness_entry(w, oracles[j] as int) is None {
        Err(Error::MissingWitness { id: oracles[j] })
    } else {
        spec_polys_present(w, oracles, j + 1)
    }
}

/// The first flushed column whose arity differs from the first one's.
pub open spec fn spec_nvars_uniform(
    w: Seq<Option<WitnessColumnModel>>,
    oracles: Seq<usize>,
    expected: usize,
    j: int,
) -> Result<(), Error>
    decreases oracles.len() - j,
{
    if j < 0 || j >= oracles.len() {
        Ok(())
    } else {
        let got = match witness_entry(w, oracles[j] as int) {
            Some(c) => c.n_vars,
            None => expected,
        };
        if got != expected {
            Err(Error::ChannelFlushNvarsMismatch { expected, got })
        } else {
            spec_nvars_uniform(w, oracles, expected, j + 1)
        }
    }
}

/// The first flush, in order, that fails a static check: a channel id
/// out of range, a missing witness column, a flushed-arity mismatch, or
/// a row count beyond the oracle's hypercube.
pub open spec fn spec_flush_pre(
    w: Seq<Option<WitnessColumnModel>>,
    fs: Seq<FlushModel>,
    max: usize,
    i: int,
) -> Result<(), Error>
    decreases fs.len() - i,
{
    if i < 0 || i >= fs.len() {
        Ok(())
    } else {
        let f = fs[i];
        if f.channel_id > max {
            Err(Error::ChannelIdOutOfRange { max, got: f.channel_id })
        } else if f.oracles.len() == 0 {
            spec_flush_pre(w, fs, max, i + 1)
        } else if spec_polys_present(w, f.oracles, 0) is Err {
            spec_polys_present(w, f.oracles, 0)
        } else {
            let expected = witness_entry(w, f.oracles[0] as int)->Some_0.n_vars;
            if spec_nvars_uniform(w, f.oracles, expected, 0) is Err {
                spec_nvars_uniform(w, f.oracles, expected, 0)
            } else if f.count > pow2(expected as nat) {
                Err(Error::FlushCountExceedsOracleSize { id: f.oracles[0], count: f.count })
            } else {
                spec_flush_pre(w, fs, max, i + 1)
            }
        }
    }
}

/// The row tuple of a flush: the value of each flushed column at the
/// given hypercube vertex.
pub open spec fn spec_row_vals(
    w: Seq<Option<WitnessColumnModel>>,
    oracles: Seq<usize>,
    row: int,
) -> Seq<u128> {
    Seq::new(
        oracles.len(),
        |j: int|
            match witness_entry(w, oracles[j] as int) {
                Some(c) => if row < c.evals.len() {
                    c.evals[row]
                } else {
                    0u128
                },
                None => 0u128,
            },
    )
}

/// The first failure while reading one row: a missing column or a row
/// beyond the column's table.
pub open spec fn spec_row_err(
    w: Seq<Option<WitnessColumnModel>>,
    oracles: Seq<usize>,
    row: int,
    j: int,
) -> Result<(), Error>
    decreases oracles.len() - j,
{
    if j < 0 || j >= oracles.len() {
        Ok(())
    } else {
        match witness_entry(w, oracles[j] as int) {
            None => Err(Error::MissingWitness { id: oracles[j] }),
            Some(c) => if row >= c.evals.len() {
                Err(Error::IncorrectQuerySize { expected: c.n_vars })
            } else {
                spec_row_err(w, oracles, row, j + 1)
            },
        }
    }
}

/// The channel after replaying rows `row..count` of one flush.
pub open spec fn spec_flush_rows(
    ch: ChannelModel,
    f: FlushModel,
    w: Seq<Option<WitnessColumnModel>>,
    row: int,
) -> Result<ChannelModel, Error>
    decreases f.count - row,
{
    if row < 0 || row >= f.count {
        Ok(ch)
    } else if spec_row_err(w, f.oracles, row, 0) is Err {
        Err(spec_row_err(w, f.oracles, row, 0)->Err_0)
    } else {
        match spec_channel_flush(ch, f.direction, f.multiplicity, spec_row_vals(w, f.oracles, row)) {
            Ok(c2) => spec_flush_rows(c2, f, w, row + 1),
            Err(e) => Err(e),
        }
    }
}

/// The channel after folding in the boundaries `i..` addressed to it.
pub open spec fn spec_replay_boundaries(
    ch: ChannelModel,
    bs: Seq<BoundaryModel>,
    id: usize,
    i: int,
) -> Result<ChannelModel, Error>
    decreases bs.len() - i,
{
    if i < 0 || i >= bs.len() {
        Ok(ch)
    } else if bs[i].channel_id != id {
        spec_replay_boundaries(ch, bs, id, i + 1)
    } else {
        match spec_channel_flush(ch, bs[i].direction, bs[i].multiplicity, bs[i].values) {
            Ok(c2) => spec_replay_boundaries(c2, bs, id, i + 1),
            Err(e) => Err(e),
        }
    }
}

/// The channel after replaying the flushes `i..` addressed to it; a
/// flush without oracles contributes nothing.
pub open spec fn spec_replay_flushes(
    ch: ChannelModel,
    fs: Seq<FlushModel>,
    w: Seq<Option<WitnessColumnModel>>,
    id: usize,
    i: int,
) -> Result<ChannelModel, Error>
    decreases fs.len() - i,
{
    if i < 0 || i >= fs.len() {
        Ok(ch)
    } else if fs[i].channel_id != id || fs[i].oracles.len() == 0 {
        spec_replay_flushes(ch, fs, w, id, i + 1)
    } else {
        match spec_flush_rows(ch, fs[i], w, 0) {
            Ok(c2) => spec_replay_flushes(c2, fs, w, id, i + 1),
            Err(e) => Err(e),
        }
    }
}

/// The replayed state of one channel: boundaries folded in first, then
/// every flush's engaged rows.
pub open spec fn spec_channel_state(
    w: Seq<Option<WitnessColumnModel>>,
    bs: Seq<BoundaryModel>,
    fs: Seq<FlushModel>,
    id: usize,
) -> Result<ChannelModel, Error> {
    let init = ChannelModel { width: None, entries: Seq::<(Seq<u128>, int)>::empty() };
    match spec_replay_boundaries(init, bs, id, 0) {
        Ok(c1) => spec_replay_flushes(c1, fs, w, id, 0),
        Err(e) => Err(e),
    }
}

/// The outcome over channels `id..=max`: the first channel that fails
/// to replay or is unbalanced decides.
pub open spec fn spec_channels_check(
    w: Seq<Option<WitnessColumnModel>>,
    bs: Seq<BoundaryModel>,
    fs: Seq<FlushModel>,
    max: usize,
    id: int,
) -> Result<(), Error>
    decreases max - id + 1,
{
    if id < 0 || id > max {
        Ok(())
    } else {
        match spec_channel_state(w, bs, fs, id as usize) {
            Err(e) => Err(e),
            Ok(ch) => if !spec_balanced(ch) {
                Err(Error::Verification(VerificationError::ChannelUnbalanced { id: id as usize }))
            } else {
                spec_channels_check(w, bs, fs, max, id + 1)
            },
        }
    }
}

/// The full witness-side outcome: every boundary and flush addresses a
/// channel in range, every flush's static checks pass, and every
/// channel in `0..=max` replays to a balanced state.
pub open spec fn spec_validate_witness(
    w: Seq<Option<WitnessColumnModel>>,
    fs: Seq<FlushModel>,
    bs: Seq<BoundaryModel>,
    max: usize,
) -> Result<(), Error> {
    if spec_boundary_ids_ok(bs, max, 0) is Err {
        spec_boundary_ids_ok(bs, max, 0)
    } else if spec_flush_pre(w, fs, max, 0) is Err {
        spec_flush_pre(w, fs, max, 0)
    } else {
        spec_channels_check(w, bs, fs, max, 0)
    }
}


/// The witness-side law of channels: when every boundary and flush
/// passes its static checks, validation succeeds exactly when every
/// channel's replayed multiset is balanced, and an imbalance is
/// reported as the first unbalanced channel.
pub proof fn lemma_validate_witness_iff(
    w: Seq<Option<WitnessColumnModel>>,
    fs: Seq<FlushModel>,
    bs: Seq<BoundaryModel>,
    max: usize,
)
    requires
        spec_boundary_ids_ok(bs, max, 0) is Ok,
        spec_flush_pre(w, fs, max, 0) is Ok,
    ensures
        spec_validate_witness(w, fs, bs, max) is Ok <==> (forall|id: int|
            0 <= id <= max ==> (#[trigger] spec_channel_state(w, bs, fs, id as usize)) is Ok
                && spec_balanced(spec_channel_state(w, bs, fs, id as usize)->Ok_0)),
{
    lemma_channels_check_iff(w, bs, fs, max, 0);
}

/// The check over channels `i..=max` succeeds exactly when each of
/// them replays to a balanced state.
proof fn lemma_channels_check_iff(
    w: Seq<Option<WitnessColumnModel>>,
    bs: Seq<BoundaryModel>,
    fs: Seq<FlushModel>,
    max: usize,
    i: int,
)
    requires
        0 <= i,
    ensures
        spec_channels_check(w, bs, fs, max, i) is Ok <==> (forall|id: int|
            i <= id <= max ==> (#[trigger] spec_channel_state(w, bs, fs, id as usize)) is Ok
                && spec_balanced(spec_channel_state(w, bs, fs, id as usize)->Ok_0)),
    decreases max - i + 1,
{
    if i <= max {
        lemma_channels_check_iff(w, bs, fs, max, i + 1);
        if spec_channels_check(w, bs, fs, max, i) is Ok {
            assert(spec_channel_state(w, bs, fs, i as usize) is Ok);
        }
    }
}

/// Replays boundaries and flushes against the witness and checks that
/// every channel in `0..=max_channel_id` balances exactly: the multiset
/// of pushed tuples cancels the multiset of pulled tuples.
#[verifier::loop_isolation(false)]
pub fn validate_witness(
    witness: &MultilinearExtensionIndex,
    flushes: &Vec<Flush>,
    boundaries: &Vec<Boundary>,
    max_channel_id: usize,
) -> (r: Result<(), Error>)
    ensures
        r == spec_validate_witness(
            witness@,
            flushes@.map_values(|f: Flush| f@),
            boundaries@.map_values(|b: Boundary| b@),
            max_channel_id,
        ),
{
    let ghost w = witness@;
    let ghost fs = flushes@.map_values(|f: Flush| f@);
    let ghost bs = boundaries@.map_values(|b: Boundary| b@);

    // Boundary channel ids must be in range.
    let mut i: usize = 0;
    while i < boundaries.len()
        invariant
            i <= bs.len(),
            bs == boundaries@.map_values(|b: Boundary| b@),
            bs.len() == boundaries@.len(),
            spec_boundary_ids_ok(bs, max_channel_id, 0) == spec_boundary_ids_ok(
                bs,
                max_channel_id,
                i as int,
            ),
        decreases bs.len() - i,
    {
        proof {
            assert(bs[i as int] == boundaries@[i as int]@);
        }
        if boundaries[i].channel_id > max_channel_id {
            return Err(
                Error::ChannelIdOutOfRange { max: max_channel_id, got: boundaries[i].channel_id },
            );
        }
        i = i + 1;
    }

    // Flush static checks.
    let mut i: usize = 0;
    while i < flushes.len()
        invariant
            i <= fs.len(),
            w == witness@,
            fs == flushes@.map_values(|f: Flush| f@),
            fs.len() == flushes@.len(),
            spec_boundary_ids_ok(bs, max_channel_id, 0) is Ok,
            spec_flush_pre(w, fs, max_channel_id, 0) == spec_flush_pre(
                w,
                fs,
                max_channel_id,
                i as int,
            ),
        decreases fs.len() - i,
    {
        let f = &flushes[i];
        proof {
            assert(fs[i as int] == flushes@[i as int]@);
            assert(fs[i as int] == f@);
        }
        if f.channel_id > max_channel_id {
            return Err(Error::ChannelIdOutOfRange { max: max_channel_id, got: f.channel_id });
        }
        if f.oracles.len() > 0 {
            // Every flushed oracle must have a witness column.
            let mut j: usize = 0;
            while j < f.oracles.len()
                invariant
                    j <= f@.oracles.len(),
                    w == witness@,
                    spec_polys_present(w, f@.oracles, 0) == spec_polys_present(
                        w,
                        f@.oracles,
                        j as int,
                    ),
                decreases f@.oracles.len() - j,
            {
                match witness.get_multilin_poly(f.oracles[j]) {
                    Ok(_) => {},
                    Err(e) => {
                        return Err(e);
                    },
                }
                j = j + 1;
            }
            // All flushed columns must share one arity.
            proof {
                lemma_polys_present_all(w, f@.oracles, 0);
            }
            let first = match witness.get_multilin_poly(f.oracles[0]) {
                Ok(c) => c,
                Err(e) => {
                    proof {
                        assert(false);
                    }
                    return Err(e);
                },
            };
            let expected = first.n_vars;
            let mut j: usize = 0;
            while j < f.oracles.len()
                invariant
                    j <= f@.oracles.len(),
                    w == witness@,
                    spec_polys_present(w, f@.oracles, 0) is Ok,
                    spec_nvars_uniform(w, f@.oracles, expected, 0) == spec_nvars_uniform(
                        w,
                        f@.oracles,
                        expected,
                        j as int,
                    ),
                decreases f@.oracles.len() - j,
            {
                proof {
                    lemma_polys_present_all(w, f@.oracles, j as int);
                }
                let col = match witness.get_multilin_poly(f.oracles[j]) {
                    Ok(c) => c,
                    Err(e) => {
                        proof {
                            assert(false);
                        }
                        return Err(e);
                    },
                };
                if col.n_vars != expected {
                    return Err(
                        Error::ChannelFlushNvarsMismatch { expected, got: col.n_vars },
                    );
                }
                j = j + 1;
            }
            // The engaged row count must fit the hypercube.
            if !count_fits(f.count, expected) {
                return Err(
                    Error::FlushCountExceedsOracleSize { id: f.oracles[0], count: f.count },
                );
            }
        }
        i = i + 1;
    }

    // Replay each channel and check balance.
    let mut id: u128 = 0;
    while id <= max_channel_id as u128
        invariant
            id <= max_channel_id as u128 + 1,
            w == witness@,
            fs == flushes@.map_values(|f: Flush| f@),
            bs == boundaries@.map_values(|b: Boundary| b@),
            fs.len() == flushes@.len(),
            bs.len() == boundaries@.len(),
            spec_boundary_ids_ok(bs, max_channel_id, 0) is Ok,
            spec_flush_pre(w, fs, max_channel_id, 0) is Ok,
            spec_channels_check(w, bs, fs, max_channel_id, 0) == spec_channels_check(
                w,
                bs,
                fs,
                max_channel_id,
                id as int,
            ),
        decreases max_channel_id - id + 1,
    {
        let cur: usize = id as usize;
        proof {
            assert(0 <= id as int <= max_channel_id as int);
        }
        let mut ch = Channel::new();
        let ghost init_ch = ChannelModel { width: None, entries: Seq::<(Seq<u128>, int)>::empty() };
        proof {
            assert(ch@ == init_ch);
        }

        // Boundaries addressed to this channel.
        let mut i: usize = 0;
        while i < boundaries.len()
            invariant
                i <= bs.len(),
                bs == boundaries@.map_values(|b: Boundary| b@),
                bs.len() == boundaries@.len(),
                spec_replay_boundaries(
                    ChannelModel { width: None, entries: Seq::<(Seq<u128>, int)>::empty() },
                    bs,
                    cur,
                    0,
                ) == spec_replay_boundaries(ch@, bs, cur, i as int),
            decreases bs.len() - i,
        {
            let b = &boundaries[i];
            proof {
                assert(bs[i as int] == boundaries@[i as int]@);
                assert(bs[i as int] == b@);
            }
            if b.channel_id == cur {
                let vals = copy_vals(&b.values);
                let ghost ch_pre = ch@;
                match ch.flush(b.direction, b.multiplicity, vals) {
                    Ok(_) => {},
                    Err(e) => {
                        proof {
                            assert(spec_replay_boundaries(ch_pre, bs, cur, i as int)
                                == Err::<ChannelModel, Error>(e));
                            assert(spec_channel_state(w, bs, fs, cur) == Err::<
                                ChannelModel,
                                Error,
                            >(e));
                            lemma_channels_check_err(w, bs, fs, max_channel_id, id as int, e);
                        }
                        return Err(e);
                    },
                }
            }
            i = i + 1;
        }

        // Flushes addressed to this channel.
        proof {
            assert(spec_replay_boundaries(init_ch, bs, cur, 0) == Ok::<ChannelModel, Error>(ch@));
        }
        let ghost ch1 = ch@;
        let mut i: usize = 0;
        while i < flushes.len()
            invariant
                i <= fs.len(),
                w == witness@,
                fs == flushes@.map_values(|f: Flush| f@),
                fs.len() == flushes@.len(),
                spec_replay_flushes(ch1, fs, w, cur, 0) == spec_replay_flushes(
                    ch@,
                    fs,
                    w,
                    cur,
                    i as int,
                ),
            decreases fs.len() - i,
        {
            let f = &flushes[i];
            proof {
                assert(fs[i as int] == flushes@[i as int]@);
                assert(fs[i as int] == f@);
            }
            if f.channel_id == cur && f.oracles.len() > 0 {
                let ghost ch_before = ch@;
                let mut row: usize = 0;
                while row < f.count
                    invariant
                        row <= f@.count,
                        w == witness@,
                        spec_flush_rows(ch_before, f@, w, 0) == spec_flush_rows(
                            ch@,
                            f@,
                            w,
                            row as int,
                        ),
                    decreases f@.count - row,
                {
                    // Build the row tuple.
                    let mut vals: Vec<u128> = Vec::new();
                    let mut j: usize = 0;
                    while j < f.oracles.len()
                        invariant
                            j <= f@.oracles.len(),
                            w == witness@,
                            vals@ == spec_row_vals(w, f@.oracles, row as int).take(j as int),
                            spec_row_err(w, f@.oracles, row as int, 0) == spec_row_err(
                                w,
                                f@.oracles,
                                row as int,
                                j as int,
                            ),
                        decreases f@.oracles.len() - j,
                    {
                        let col = match witness.get_multilin_poly(f.oracles[j]) {
                            Ok(c) => c,
                            Err(e) => {
                                proof {
                                    assert(spec_row_err(w, f@.oracles, row as int, j as int)
                                        == Err::<(), Error>(e));
                                    assert(spec_flush_rows(ch@, f@, w, row as int) == Err::<
                                        ChannelModel,
                                        Error,
                                    >(e));
                                    lemma_replay_flushes_err(
                                        ch1,
                                        ch_before,
                                        fs,
                                        w,
                                        cur,
                                        i as int,
                                        e,
                                    );
                                    lemma_channels_check_err(
                                        w,
                                        bs,
                                        fs,
                                        max_channel_id,
                                        id as int,
                                        e,
                                    );
                                }
                                return Err(e);
                            },
                        };
                        let v = match col.evaluate_on_hypercube(row) {
                            Ok(v) => v,
                            Err(e) => {
                                proof {
                                    assert(spec_row_err(w, f@.oracles, row as int, j as int)
                                        == Err::<(), Error>(e));
                                    assert(spec_flush_rows(ch@, f@, w, row as int) == Err::<
                                        ChannelModel,
                                        Error,
                                    >(e));
                                    lemma_replay_flushes_err(
                                        ch1,
                                        ch_before,
                                        fs,
                                        w,
                                        cur,
                                        i as int,
                                        e,
                                    );
                                    lemma_channels_check_err(
                                        w,
                                        bs,
                                        fs,
                                        max_channel_id,
                                        id as int,
                                        e,
                                    );
                                }
                                return Err(e);
                            },
                        };
                        vals.push(v);
                        proof {
                            assert(vals@ =~= spec_row_vals(w, f@.oracles, row as int).take(
                                j as int + 1,
                            ));
                        }
                        j = j + 1;
                    }
                    proof {
                        assert(vals@ =~= spec_row_vals(w, f@.oracles, row as int));
                    }
                    let ghost ch_row_pre = ch@;
                    match ch.flush(f.direction, f.multiplicity, vals) {
                        Ok(_) => {},
                        Err(e) => {
                            proof {
                                assert(spec_flush_rows(ch_row_pre, f@, w, row as int) == Err::<
                                    ChannelModel,
                                    Error,
                                >(e));
                                lemma_replay_flushes_err(ch1, ch_before, fs, w, cur, i as int, e);
                                lemma_channels_check_err(w, bs, fs, max_channel_id, id as int, e);
                            }
                            return Err(e);
                        },
                    }
                    row = row + 1;
                }
                proof {
                    assert(spec_flush_rows(ch_before, f@, w, 0) == Ok::<ChannelModel, Error>(ch@));
                }
            }
            i = i + 1;
        }

        proof {
            assert(spec_replay_flushes(ch1, fs, w, cur, 0) == Ok::<ChannelModel, Error>(ch@));
            assert(spec_channel_state(w, bs, fs, cur) == Ok::<ChannelModel, Error>(ch@));
        }
        if !ch.is_balanced() {
            return Err(
                Error::Verification(VerificationError::ChannelUnbalanced { id: cur }),
            );
        }
        id = id + 1;
    }
    Ok(())
}

/// When every flushed oracle has a column, each one is present.
proof fn lemma_polys_present_all(
    w: Seq<Option<WitnessColumnModel>>,
    oracles: Seq<usize>,
    j: int,
)
    requires
        spec_polys_present(w, oracles, 0) is Ok,
        0 <= j < oracles.len(),
    ensures
        witness_entry(w, oracles[j] as int) is Some,
{
    lemma_polys_present_from(w, oracles, 0, j);
}

/// Presence from position `i` on covers every later position.
proof fn lemma_polys_present_from(
    w: Seq<Option<WitnessColumnModel>>,
    oracles: Seq<usize>,
    i: int,
    j: int,
)
    requires
        spec_polys_present(w, oracles, i) is Ok,
        0 <= i <= j < oracles.len(),
    ensures
        witness_entry(w, oracles[j] as int) is Some,
    decreases j - i,
{
    if i < j {
        lemma_polys_present_from(w, oracles, i + 1, j);
    }
}

/// A failed channel replay decides the whole check at that channel.
proof fn lemma_channels_check_err(
    w: Seq<Option<WitnessColumnModel>>,
    bs: Seq<BoundaryModel>,
    fs: Seq<FlushModel>,
    max: usize,
    id: int,
    e: Error,
)
    requires
        0 <= id <= max,
        spec_channel_state(w, bs, fs, id as usize) == Err::<ChannelModel, Error>(e),
    ensures
        spec_channels_check(w, bs, fs, max, id) == Err::<(), Error>(e),
{
}

/// A failed row replay decides the flush replay at that flush.
proof fn lemma_replay_flushes_err(
    ch1: ChannelModel,
    ch_cur: ChannelModel,
    fs: Seq<FlushModel>,
    w: Seq<Option<WitnessColumnModel>>,
    id: usize,
    i: int,
    e: Error,
)
    requires
        0 <= i < fs.len(),
        fs[i].channel_id == id,
        fs[i].oracles.len() > 0,
        spec_replay_flushes(ch1, fs, w, id, 0) == spec_replay_flushes(ch_cur, fs, w, id, i),
        spec_flush_rows(ch_cur, fs[i], w, 0) == Err::<ChannelModel, Error>(e),
    ensures
        spec_replay_flushes(ch1, fs, w, id, 0) == Err::<ChannelModel, Error>(e),
{
}

/// A failed row read or ledger update decides the row replay there.
proof fn lemma_flush_rows_err(
    ch: ChannelModel,
    f: FlushModel,
    w: Seq<Option<WitnessColumnModel>>,
    row: int,
    e: Error,
)
    requires
        0 <= row < f.count,
        spec_row_err(w, f.oracles, row, 0) == Err::<(), Error>(e),
    ensures
        spec_flush_rows(ch, f, w, row) == Err::<ChannelModel, Error>(e),
{
}

/// Whether a row count lies within a hypercube of the given dimension.
fn count_fits(count: usize, n_vars: usize) -> (r: bool)
    ensures
        r == (count as nat <= pow2(n_vars as nat)),
{
    if n_vars >= 64 {
        proof {
            vstd::arithmetic::power2::lemma2_to64();
            vstd::arithmetic::power2::lemma2_to64_rest();
            if n_vars > 64 {
                vstd::arithmetic::power2::lemma_pow2_strictly_increases(64, n_vars as nat);
            }
        }
        true
    } else {
        let cap: u64 = 1u64 << (n_vars as u64);
        proof {
            vstd::bits::lemma_u64_pow2_no_overflow(n_vars as nat);
            vstd::bits::lemma_u64_shl_is_mul(1u64, n_vars as u64);
        }
        (count as u64) <= cap
    }
}

/// A copy of a tuple of field values.
pub fn copy_tuple(v: &Vec<u128>) -> (r: Vec<u128>)
    ensures
        r@ == v@,
{
    copy_vals(v)
}

/// A copy of a tuple of field values.
fn copy_vals(v: &Vec<u128>) -> (r: Vec<u128>)
    ensures
        r@ == v@,
{
    let mut out: Vec<u128> = Vec::new();
    let mut i: usize = 0;
    while i < v.len()
        invariant
            i <= v@.len(),
            out@ == v@.take(i as int),
        decreases v@.len() - i,
    {
        out.push(v[i]);
        proof {
            assert(out@ == v@.take(i as int + 1));
        }
        i = i + 1;
    }
    proof {
        assert(v@.take(v@.len() as int) == v@);
    }
    out
}

} // verus!
