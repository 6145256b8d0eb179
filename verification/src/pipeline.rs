//! The proof-verification pipeline: commit, grand-product setup,
//! non-zero check, channel balance, claim reductions, evaluation-claim
//! resolution, coverage and final binding, in strict sequence.
//!
//! The layered product-check, sumcheck and zerocheck round protocols
//! and the commitment scheme are collaborators: their outputs enter the
//! pipeline as transcript material, and the polynomial commitment
//! scheme is reached through the [`PolyCommitScheme`] trait. Everything
//! the pipeline itself decides is verified here.
use vstd::prelude::*;

use crate::channel::{Boundary, BoundaryModel, Flush, FlushDirection, FlushModel};
use crate::error::{Error, VerificationError};
use crate::field::{GF_ONE, gf_add, gf_mul, gf_pow, spec_mul, spec_pow};
use crate::oracle::{MultilinearOracleSet, OracleModel, model_n_vars, spec_lc_check};
use crate::transcript::StreamReader;
use vstd::multiset::Multiset;

verus! {

/// A claimed grand product over an oracle's hypercube.
#[derive(Debug, Clone, PartialEq, Eq, Structural)]
pub struct ProductClaim {
    pub oracle_id: usize,
    pub n_vars: usize,
    pub product: u128,
}

/// A final-layer claim: an evaluation of an oracle at a point.
#[derive(Debug, Clone)]
pub struct LayerClaim {
    pub eval_point: Vec<u128>,
    pub eval: u128,
}

/// The mathematical value of a layer claim.
pub ghost struct LayerClaimModel {
    pub eval_point: Seq<u128>,
    pub eval: u128,
}

impl View for LayerClaim {
    type V = LayerClaimModel;

    open spec fn view(&self) -> LayerClaimModel {
        LayerClaimModel { eval_point: self.eval_point@, eval: self.eval }
    }
}

/// An evaluation claim against a named oracle.
#[derive(Debug, Clone)]
pub struct EvalcheckClaim {
    pub oracle_id: usize,
    pub eval_point: Vec<u128>,
    pub eval: u128,
}

/// The mathematical value of an evaluation claim.
pub ghost struct EvalcheckClaimModel {
    pub oracle_id: usize,
    pub eval_point: Seq<u128>,
    pub eval: u128,
}

impl View for EvalcheckClaim {
    type V = EvalcheckClaimModel;

    open spec fn view(&self) -> EvalcheckClaimModel {
        EvalcheckClaimModel {
            oracle_id: self.oracle_id,
            eval_point: self.eval_point@,
            eval: self.eval,
        }
    }
}

/// A batched sumcheck claim over one composition.
#[derive(Debug, Clone, PartialEq, Eq, Structural)]
pub struct SumcheckClaimInfo {
    pub n_vars: usize,
    pub degree: usize,
    pub sum: u128,
}

/// A zerocheck claim: one constraint set's arity and maximum
/// individual degree.
#[derive(Debug, Clone, Copy, PartialEq, Eq, Structural)]
pub struct ZerocheckClaimInfo {
    pub n_vars: usize,
    pub max_individual_degree: usize,
}

/// The three-term composite of the flush reduction:
/// `(step * value + (1 - step)) * eq`.
#[derive(Debug)]
pub struct FlushSumcheckComposition;

/// The composite's value on a three-coordinate query.
pub open spec fn spec_flush_composite(value: u128, step: u128, eq: u128) -> u128 {
    spec_mul(spec_mul(step, value) ^ (1u128 ^ step), eq)
}

impl FlushSumcheckComposition {
    /// The composite reads three columns.
    pub fn n_vars(&self) -> (r: usize)
        ensures
            r == 3,
    {
        3
    }

    /// The composite has total degree three.
    pub fn degree(&self) -> (r: usize)
        ensures
            r == 3,
    {
        3
    }

    /// The composite's coefficients lie in the prime subfield.
    pub fn binary_tower_level(&self) -> (r: usize)
        ensures
            r == 0,
    {
        0
    }

    /// Evaluates the composite on `(value, step, eq)`.
    pub fn evaluate(&self, query: &[u128]) -> (r: Result<u128, Error>)
        ensures
            query@.len() == 3 ==> r == Ok::<u128, Error>(
                spec_flush_composite(query@[0], query@[1], query@[2]),
            ),
            query@.len() != 3 ==> r == Err::<u128, Error>(
                Error::IncorrectQuerySize { expected: 3 },
            ),
    {
        if query.len() != 3 {
            return Err(Error::IncorrectQuerySize { expected: 3 });
        }
        let unmasked_flush = *vstd::slice::slice_index_get(query, 0);
        let step_down = *vstd::slice::slice_index_get(query, 1);
        let eq_ind = *vstd::slice::slice_index_get(query, 2);
        Ok(gf_mul(gf_add(gf_mul(step_down, unmasked_flush), 1u128 ^ step_down), eq_ind))
    }
}

/// The abstract polynomial commitment scheme the pipeline binds
/// against; implementations are supplied by the caller.
pub trait PolyCommitScheme {
    /// The arity of the committed polynomials.
    fn n_vars(&self) -> usize;

    /// Verifies an evaluation proof at a query point against a
    /// commitment, reading proof material from the streams; an
    /// implementation consumes stream bytes but must leave the readers
    /// within their streams.
    fn verify_evaluation(
        &self,
        advice: &mut StreamReader,
        transcript: &mut StreamReader,
        commitment: &Vec<u8>,
        query: &Vec<u128>,
        values: &Vec<u128>,
    ) -> (r: Result<(), Error>)
        requires
            old(advice).wf(),
            old(transcript).wf(),
        ensures
            final(advice).wf(),
            final(transcript).wf(),
    ;

    /// The byte size of an evaluation proof for a polynomial batch.
    fn proof_size(&self, n_polys: usize) -> usize;
}

/// One grand-product claim per oracle, pairing each handle with its
/// arity and its claimed product.
pub fn construct_grand_product_claims(
    ids: &Vec<usize>,
    oracles: &MultilinearOracleSet,
    products: &Vec<u128>,
) -> (r: Result<Vec<ProductClaim>, Error>)
    requires
        oracles.wf(),
        ids@.len() == products@.len(),
    ensures
        r is Ok <==> (forall|j: int| 0 <= j < ids@.len() ==> (#[trigger] ids@[j]) < oracles@.len()),
        r matches Ok(v) ==> (v@.len() == ids@.len() && forall|j: int|
            0 <= j < ids@.len() ==> (#[trigger] v@[j]) == (ProductClaim {
                oracle_id: ids@[j],
                n_vars: model_n_vars(oracles@, ids@[j] as int) as usize,
                product: products@[j],
            })),
        r matches Err(e) ==> e matches Error::InvalidOracleId { .. },
{
    let mut out: Vec<ProductClaim> = Vec::new();
    let mut j: usize = 0;
    while j < ids.len()
        invariant
            j <= ids@.len(),
            ids@.len() == products@.len(),
            oracles.wf(),
            out@.len() == j,
            forall|k: int| 0 <= k < j ==> (#[trigger] ids@[k]) < oracles@.len(),
            forall|k: int|
                0 <= k < j ==> (#[trigger] out@[k]) == (ProductClaim {
                    oracle_id: ids@[k],
                    n_vars: model_n_vars(oracles@, ids@[k] as int) as usize,
                    product: products@[k],
                }),
        decreases ids@.len() - j,
    {
        let id = ids[j];
        if !oracles.is_valid_oracle_id(id) {
            return Err(Error::InvalidOracleId { id });
        }
        let nv = oracles.n_vars(id);
        out.push(ProductClaim { oracle_id: id, n_vars: nv, product: products[j] });
        j = j + 1;
    }
    Ok(out)
}

/// Rejects any non-zero-asserted oracle whose claimed grand product is
/// the additive identity: an all-zero row set cannot satisfy the
/// assertion.
pub fn check_non_zero_products(products: &Vec<u128>) -> (r: Result<(), Error>)
    ensures
        r is Ok <==> (forall|j: int| 0 <= j < products@.len() ==> (#[trigger] products@[j]) != 0),
        r is Err ==> r == Err::<(), Error>(Error::Zeros),
{
    let mut j: usize = 0;
    while j < products.len()
        invariant
            j <= products@.len(),
            forall|k: int| 0 <= k < j ==> (#[trigger] products@[k]) != 0,
        decreases products@.len() - j,
    {
        if products[j] == 0 {
            return Err(Error::Zeros);
        }
        j = j + 1;
    }
    Ok(())
}

/// The running power of the mixing challenge: coefficient `k` of a
/// flush-mixing combination.
pub open spec fn spec_mix_pow(mixing: u128, k: nat) -> u128
    decreases k,
{
    if k == 0 {
        1u128
    } else {
        spec_mul(spec_mix_pow(mixing, (k - 1) as nat), mixing)
    }
}

/// The terms of one flush-mixing oracle: each flushed column paired
/// with the matching power of the mixing challenge.
pub open spec fn spec_mixing_terms(ids: Seq<usize>, mixing: u128) -> Seq<(usize, u128)> {
    Seq::new(ids.len(), |k: int| (ids[k], spec_mix_pow(mixing, k as nat)))
}

/// Whether one flush can be turned into a mixing oracle against the
/// graph: it names at least one registered column, all of one arity,
/// and addresses a sampled channel.
pub open spec fn spec_flush_buildable(s: Seq<OracleModel>, f: FlushModel, n_channels: int) -> bool {
    &&& f.oracles.len() > 0
    &&& (f.channel_id as int) < n_channels
    &&& forall|q: int|
        0 <= q < f.oracles.len() ==> (#[trigger] f.oracles[q]) < s.len() && model_n_vars(
            s,
            f.oracles[q] as int,
        ) == model_n_vars(s, f.oracles[0] as int)
}

/// Builds one flush-mixing oracle per flush: a linear combination of
/// the flushed columns with mixing-challenge powers as coefficients,
/// offset by the channel's permutation challenge. The oracles are
/// appended in flush declaration order, which fixes their handles and
/// the transcript order.
#[verifier::loop_isolation(false)]
#[verifier::rlimit(100)]
pub fn make_flush_oracles(
    oracles: &mut MultilinearOracleSet,
    flushes: &Vec<Flush>,
    mixing_challenge: u128,
    permutation_challenges: &Vec<u128>,
) -> (r: Result<Vec<usize>, Error>)
    requires
        old(oracles).wf(),
    ensures
        final(oracles).wf(),
        r is Ok <==> (forall|j: int|
            0 <= j < flushes@.len() ==> spec_flush_buildable(
                old(oracles)@,
                (#[trigger] flushes@[j])@,
                permutation_challenges@.len() as int,
            )),
        r matches Ok(v) ==> (v@.len() == flushes@.len() && final(oracles)@.len() == old(oracles)@.len()
            + flushes@.len() && forall|j: int|
            0 <= j < flushes@.len() ==> (#[trigger] v@[j]) == old(oracles)@.len() + j && final(oracles)@[old(oracles)@.len()
                + j] == (OracleModel::LinearCombination {
                n_vars: model_n_vars(
                    old(oracles)@,
                    (#[trigger] flushes@[j])@.oracles[0] as int,
                ) as usize,
                offset: permutation_challenges@[flushes@[j]@.channel_id as int],
                terms: spec_mixing_terms(flushes@[j]@.oracles, mixing_challenge),
            })),
        r is Err ==> (final(oracles)@.len() >= old(oracles)@.len() && forall|q: int|
            0 <= q < old(oracles)@.len() ==> final(oracles)@[q] == old(oracles)@[q]),
        r == Err::<Vec<usize>, Error>(Error::EmptyFlushOracles) ==> (exists|j: int|
            0 <= j < flushes@.len() && (#[trigger] flushes@[j])@.oracles.len() == 0),
        r matches Err(e) ==> ((e matches Error::ChannelIdOutOfRange { .. }) ==> (
        e->ChannelIdOutOfRange_max == permutation_challenges@.len() && exists|j: int|
            0 <= j < flushes@.len() && (#[trigger] flushes@[j])@.channel_id
                == e->ChannelIdOutOfRange_got && e->ChannelIdOutOfRange_got
                >= permutation_challenges@.len())),
        r matches Err(e) ==> ((e matches Error::InvalidOracleId { .. }) ==> (exists|j: int, q: int|
            0 <= j < flushes@.len() && 0 <= q < flushes@[j]@.oracles.len()
                && #[trigger] flushes@[j]@.oracles[q] == e->InvalidOracleId_id
                && e->InvalidOracleId_id >= old(oracles)@.len())),
        r matches Err(e) ==> ((e matches Error::ChannelFlushNvarsMismatch { .. }) ==> (exists|
            j: int,
            q: int,
        |
            0 <= j < flushes@.len() && 0 <= q < flushes@[j]@.oracles.len()
                && #[trigger] flushes@[j]@.oracles[q] < old(oracles)@.len() && model_n_vars(
                old(oracles)@,
                flushes@[j]@.oracles[q] as int,
            ) != model_n_vars(old(oracles)@, flushes@[j]@.oracles[0] as int))),
        r matches Err(e) ==> (e == Error::EmptyFlushOracles || e matches Error::ChannelIdOutOfRange {
            ..
        } || e matches Error::ChannelFlushNvarsMismatch { .. } || e matches Error::InvalidOracleId {
            ..
        }),
{
    let ghost base = oracles@;
    let base_size = oracles.size();
    let mut out: Vec<usize> = Vec::new();
    let mut j: usize = 0;
    while j < flushes.len()
        invariant
            j <= flushes@.len(),
            oracles.wf(),
            base_size == base.len(),
            oracles@.len() == base.len() + j,
            out@.len() == j,
            forall|q: int| 0 <= q < base.len() ==> oracles@[q] == base[q],
            forall|k: int|
                0 <= k < j ==> spec_flush_buildable(
                    base,
                    (#[trigger] flushes@[k])@,
                    permutation_challenges@.len() as int,
                ),
            forall|k: int|
                0 <= k < j ==> (#[trigger] out@[k]) == base.len() + k && oracles@[base.len() + k]
                    == (OracleModel::LinearCombination {
                    n_vars: model_n_vars(
                        base,
                        (#[trigger] flushes@[k])@.oracles[0] as int,
                    ) as usize,
                    offset: permutation_challenges@[flushes@[k]@.channel_id as int],
                    terms: spec_mixing_terms(flushes@[k]@.oracles, mixing_challenge),
                }),
        decreases flushes@.len() - j,
    {
        let f = &flushes[j];
        proof {
            assert(f@ == flushes@[j as int]@);
        }
        if f.oracles.len() == 0 {
            return Err(Error::EmptyFlushOracles);
        }
        if f.channel_id >= permutation_challenges.len() {
            return Err(
                Error::ChannelIdOutOfRange {
                    max: permutation_challenges.len(),
                    got: f.channel_id,
                },
            );
        }
        if f.oracles[0] >= base_size {
            return Err(Error::InvalidOracleId { id: f.oracles[0] });
        }
        proof {
            assert(oracles@.take(base.len() as int) =~= base);
            crate::codec::lemma_n_vars_take_stable(
                oracles@,
                base.len() as int,
                f@.oracles[0] as int,
            );
        }
        let n_vars = oracles.n_vars(f.oracles[0]);
        // All flushed columns must be registered and share one arity.
        let mut k: usize = 0;
        while k < f.oracles.len()
            invariant
                k <= f@.oracles.len(),
                forall|q: int|
                    0 <= q < k ==> (#[trigger] f@.oracles[q]) < base.len() && model_n_vars(
                        base,
                        f@.oracles[q] as int,
                    ) == model_n_vars(base, f@.oracles[0] as int),
            decreases f@.oracles.len() - k,
        {
            if f.oracles[k] >= base_size {
                return Err(Error::InvalidOracleId { id: f.oracles[k] });
            }
            proof {
                assert(oracles@.take(base.len() as int) =~= base);
                crate::codec::lemma_n_vars_take_stable(
                    oracles@,
                    base.len() as int,
                    f@.oracles[k as int] as int,
                );
            }
            let got = oracles.n_vars(f.oracles[k]);
            if got != n_vars {
                return Err(Error::ChannelFlushNvarsMismatch { expected: n_vars, got });
            }
            k = k + 1;
        }
        // Terms: each flushed column with the next mixing power.
        let mut terms: Vec<(usize, u128)> = Vec::new();
        let mut power: u128 = GF_ONE;
        let mut k: usize = 0;
        while k < f.oracles.len()
            invariant
                k <= f@.oracles.len(),
                power == spec_mix_pow(mixing_challenge, k as nat),
                terms@.len() == k,
                forall|q: int|
                    0 <= q < k ==> (#[trigger] terms@[q]) == (
                    f@.oracles[q],
                    spec_mix_pow(mixing_challenge, q as nat),
                ),
            decreases f@.oracles.len() - k,
        {
            terms.push((f.oracles[k], power));
            power = gf_mul(power, mixing_challenge);
            k = k + 1;
        }
        proof {
            assert(terms@ =~= spec_mixing_terms(f@.oracles, mixing_challenge));
            assert forall|q: int|
                0 <= q < f@.oracles.len() implies (#[trigger] f@.oracles[q]) < oracles@.len()
                && model_n_vars(oracles@, f@.oracles[q] as int) == n_vars by {
                assert(oracles@.take(base.len() as int) =~= base);
                crate::codec::lemma_n_vars_take_stable(
                    oracles@,
                    base.len() as int,
                    f@.oracles[q] as int,
                );
            }
            lemma_lc_check_ok(oracles@, terms@, n_vars, 0, f@.oracles, mixing_challenge);
        }
        let offset = permutation_challenges[f.channel_id];
        let cur_size = oracles.size();
        let ghost pre = oracles@;
        let ghost tms = terms@;
        proof {
            assert(pre.len() == cur_size);
        }
        proof {
            assert(model_n_vars(pre, f@.oracles[0] as int) == model_n_vars(
                base,
                f@.oracles[0] as int,
            )) by {
                assert(pre.take(base.len() as int) =~= base);
                crate::codec::lemma_n_vars_take_stable(pre, base.len() as int, f@.oracles[0] as int);
            }
            assert(n_vars == model_n_vars(base, f@.oracles[0] as int));
        }
        let rr = oracles.add_linear_combination_with_offset(n_vars, offset, terms);
        proof {
            assert(spec_lc_check(pre, tms, n_vars, 0) is Ok);
            assert(rr == Ok::<usize, Error>((pre.len()) as usize));
        }
        let id = match rr {
            Ok(id) => id,
            Err(_) => {
                proof {
                    assert(false);
                }
                return Err(Error::EmptyFlushOracles);
            },
        };
        out.push(id);
        proof {
            let m = OracleModel::LinearCombination {
                n_vars,
                offset,
                terms: spec_mixing_terms(f@.oracles, mixing_challenge),
            };
            assert forall|k2: int|
                0 <= k2 < j + 1 implies model_n_vars(
                oracles@,
                (#[trigger] flushes@[k2])@.oracles[0] as int,
            ) == model_n_vars(pre, flushes@[k2]@.oracles[0] as int) by {
                crate::oracle::lemma_n_vars_push_stable(pre, m, flushes@[k2]@.oracles[0] as int);
            }
            assert(oracles@ == pre.push(m));
            assert(oracles@[base.len() + j] == m);
            assert(m == (OracleModel::LinearCombination {
                n_vars: model_n_vars(base, flushes@[j as int]@.oracles[0] as int) as usize,
                offset: permutation_challenges@[flushes@[j as int]@.channel_id as int],
                terms: spec_mixing_terms(flushes@[j as int]@.oracles, mixing_challenge),
            }));
            assert forall|k2: int|
                0 <= k2 < j + 1 implies (#[trigger] out@[k2]) == base.len() + k2 && oracles@[base.len()
                + k2] == (OracleModel::LinearCombination {
                n_vars: model_n_vars(base, (#[trigger] flushes@[k2])@.oracles[0] as int) as usize,
                offset: permutation_challenges@[flushes@[k2]@.channel_id as int],
                terms: spec_mixing_terms(flushes@[k2]@.oracles, mixing_challenge),
            }) by {
                if k2 < j {
                    assert(oracles@[base.len() + k2] == pre[base.len() + k2]);
                } else {
                    assert(k2 == j);
                    assert(out@[k2] == id);
                    assert(id == base.len() + j);
                    assert(oracles@[base.len() + k2] == m);
                    assert(flushes@[k2] == flushes@[j as int]);
                }
            }
        }
        j = j + 1;
    }
    proof {
        assert forall|j2: int|
            0 <= j2 < flushes@.len() implies model_n_vars(
            oracles@,
            (#[trigger] flushes@[j2])@.oracles[0] as int,
        ) == model_n_vars(base, flushes@[j2]@.oracles[0] as int) by {
            assert(oracles@.take(base.len() as int) =~= base);
            crate::codec::lemma_n_vars_take_stable(
                oracles@,
                base.len() as int,
                flushes@[j2]@.oracles[0] as int,
            );
        }
    }
    Ok(out)
}

/// Terms pairing registered same-arity columns with coefficients pass
/// the combination check.
proof fn lemma_lc_check_ok(
    s: Seq<OracleModel>,
    terms: Seq<(usize, u128)>,
    n_vars: usize,
    i: int,
    ids: Seq<usize>,
    mixing: u128,
)
    requires
        0 <= i <= terms.len(),
        terms == spec_mixing_terms(ids, mixing),
        forall|q: int|
            0 <= q < ids.len() ==> (#[trigger] ids[q]) < s.len() && model_n_vars(s, ids[q] as int)
                == n_vars,
    ensures
        spec_lc_check(s, terms, n_vars, i) is Ok,
    decreases terms.len() - i,
{
    if i < terms.len() {
        assert(terms[i] == (ids[i], spec_mix_pow(mixing, i as nat)));
        lemma_lc_check_ok(s, terms, n_vars, i + 1, ids, mixing);
    }
}

/// The mixed value of one row tuple: the permutation challenge plus
/// each column value scaled by the matching mixing power, folded from
/// coordinate `i` on with the running sum and power.
pub open spec fn spec_mix_fold(
    values: Seq<u128>,
    i: int,
    sum: u128,
    power: u128,
    mixing: u128,
) -> u128
    decreases values.len() - i,
{
    if i < 0 || i >= values.len() {
        sum
    } else {
        spec_mix_fold(values, i + 1, sum ^ spec_mul(power, values[i]), spec_mul(power, mixing), mixing)
    }
}

/// The boundary contribution to one side of a channel: the product of
/// each matching boundary's mixed value raised to its multiplicity.
pub open spec fn spec_boundary_product(
    bs: Seq<BoundaryModel>,
    i: int,
    chan: usize,
    dir: FlushDirection,
    mixing: u128,
    offset: u128,
    acc: u128,
) -> u128
    decreases bs.len() - i,
{
    if i < 0 || i >= bs.len() {
        acc
    } else if bs[i].channel_id == chan && bs[i].direction == dir {
        let mixed = spec_mix_fold(bs[i].values, 0, offset, 1u128, mixing);
        spec_boundary_product(
            bs,
            i + 1,
            chan,
            dir,
            mixing,
            offset,
            spec_mul(acc, spec_pow(mixed, bs[i].multiplicity as nat)),
        )
    } else {
        spec_boundary_product(bs, i + 1, chan, dir, mixing, offset, acc)
    }
}

/// The flush contribution to one side of a channel: the product of the
/// claimed flush products of the matching flushes.
pub open spec fn spec_flush_product(
    fs: Seq<FlushModel>,
    products: Seq<u128>,
    i: int,
    chan: usize,
    dir: FlushDirection,
    acc: u128,
) -> u128
    decreases fs.len() - i,
{
    if i < 0 || i >= fs.len() {
        acc
    } else if fs[i].channel_id == chan && fs[i].direction == dir {
        spec_flush_product(fs, products, i + 1, chan, dir, spec_mul(acc, products[i]))
    } else {
        spec_flush_product(fs, products, i + 1, chan, dir, acc)
    }
}

/// Whether one channel balances: its pull side's product equals its
/// push side's product, boundaries and flushes combined.
pub open spec fn spec_channel_balanced(
    fs: Seq<FlushModel>,
    products: Seq<u128>,
    bs: Seq<BoundaryModel>,
    chan: usize,
    mixing: u128,
    offset: u128,
) -> bool {
    spec_flush_product(
        fs,
        products,
        0,
        chan,
        FlushDirection::Pull,
        spec_boundary_product(bs, 0, chan, FlushDirection::Pull, mixing, offset, 1u128),
    ) == spec_flush_product(
        fs,
        products,
        0,
        chan,
        FlushDirection::Push,
        spec_boundary_product(bs, 0, chan, FlushDirection::Push, mixing, offset, 1u128),
    )
}

/// The first unbalanced channel, checking ids `chan..` in order.
pub open spec fn spec_first_unbalanced(
    fs: Seq<FlushModel>,
    products: Seq<u128>,
    bs: Seq<BoundaryModel>,
    n_channels: int,
    chan: int,
    mixing: u128,
    perm: Seq<u128>,
) -> Option<int>
    decreases n_channels - chan,
{
    if chan < 0 || chan >= n_channels {
        None
    } else if !spec_channel_balanced(fs, products, bs, chan as usize, mixing, perm[chan]) {
        Some(chan)
    } else {
        spec_first_unbalanced(fs, products, bs, n_channels, chan + 1, mixing, perm)
    }
}

/// A located unbalanced channel lies in the searched range.
pub proof fn lemma_first_unbalanced_range(
    fs: Seq<FlushModel>,
    products: Seq<u128>,
    bs: Seq<BoundaryModel>,
    n_channels: int,
    chan: int,
    mixing: u128,
    perm: Seq<u128>,
)
    ensures
        spec_first_unbalanced(fs, products, bs, n_channels, chan, mixing, perm) matches Some(c)
            ==> chan <= c < n_channels,
    decreases n_channels - chan,
{
    if chan < 0 || chan >= n_channels {
    } else if !spec_channel_balanced(fs, products, bs, chan as usize, mixing, perm[chan]) {
    } else {
        lemma_first_unbalanced_range(fs, products, bs, n_channels, chan + 1, mixing, perm);
    }
}

/// Verifies that every channel's randomized pull product equals its
/// push product, combining boundary products with the claimed flush
/// products.
#[verifier::loop_isolation(false)]
pub fn verify_channels_balance(
    flushes: &Vec<Flush>,
    flush_products: &Vec<u128>,
    boundaries: &Vec<Boundary>,
    mixing_challenge: u128,
    permutation_challenges: &Vec<u128>,
) -> (r: Result<(), Error>)
    ensures
        flush_products@.len() != flushes@.len() ==> r == Err::<(), Error>(
            Error::Verification(VerificationError::IncorrectNumberOfFlushProducts),
        ),
        flush_products@.len() == flushes@.len() ==> (match spec_first_unbalanced(
            flushes@.map_values(|f: Flush| f@),
            flush_products@,
            boundaries@.map_values(|b: Boundary| b@),
            permutation_challenges@.len() as int,
            0,
            mixing_challenge,
            permutation_challenges@,
        ) {
            Some(chan) => r == Err::<(), Error>(
                Error::Verification(VerificationError::ChannelUnbalanced { id: chan as usize }),
            ),
            None => r is Ok,
        }),
{
    let ghost fs = flushes@.map_values(|f: Flush| f@);
    let ghost bs = boundaries@.map_values(|b: Boundary| b@);
    if flush_products.len() != flushes.len() {
        return Err(Error::Verification(VerificationError::IncorrectNumberOfFlushProducts));
    }
    let n_channels = permutation_challenges.len();
    let mut chan: usize = 0;
    while chan < n_channels
        invariant
            chan <= n_channels,
            spec_first_unbalanced(
                fs,
                flush_products@,
                bs,
                n_channels as int,
                0,
                mixing_challenge,
                permutation_challenges@,
            ) == spec_first_unbalanced(
                fs,
                flush_products@,
                bs,
                n_channels as int,
                chan as int,
                mixing_challenge,
                permutation_challenges@,
            ),
        decreases n_channels - chan,
    {
        let offset = permutation_challenges[chan];

        // Boundary contributions.
        let mut pull: u128 = GF_ONE;
        let mut push: u128 = GF_ONE;
        let mut i: usize = 0;
        while i < boundaries.len()
            invariant
                i <= bs.len(),
                spec_boundary_product(
                    bs,
                    0,
                    chan,
                    FlushDirection::Pull,
                    mixing_challenge,
                    offset,
                    1u128,
                ) == spec_boundary_product(
                    bs,
                    i as int,
                    chan,
                    FlushDirection::Pull,
                    mixing_challenge,
                    offset,
                    pull,
                ),
                spec_boundary_product(
                    bs,
                    0,
                    chan,
                    FlushDirection::Push,
                    mixing_challenge,
                    offset,
                    1u128,
                ) == spec_boundary_product(
                    bs,
                    i as int,
                    chan,
                    FlushDirection::Push,
                    mixing_challenge,
                    offset,
                    push,
                ),
            decreases bs.len() - i,
        {
            let b = &boundaries[i];
            proof {
                assert(bs[i as int] == b@);
            }
            if b.channel_id == chan {
                // Mix the boundary tuple.
                let mut sum: u128 = offset;
                let mut power: u128 = GF_ONE;
                let mut k: usize = 0;
                while k < b.values.len()
                    invariant
                        k <= b@.values.len(),
                        spec_mix_fold(b@.values, 0, offset, 1u128, mixing_challenge)
                            == spec_mix_fold(b@.values, k as int, sum, power, mixing_challenge),
                    decreases b@.values.len() - k,
                {
                    sum = sum ^ gf_mul(power, b.values[k]);
                    power = gf_mul(power, mixing_challenge);
                    k = k + 1;
                }
                let mixed_pow = gf_pow(sum, b.multiplicity);
                match b.direction {
                    FlushDirection::Pull => {
                        pull = gf_mul(pull, mixed_pow);
                    },
                    FlushDirection::Push => {
                        push = gf_mul(push, mixed_pow);
                    },
                }
            }
            i = i + 1;
        }

        // Flush contributions.
        let mut i: usize = 0;
        while i < flushes.len()
            invariant
                i <= fs.len(),
                spec_flush_product(
                    fs,
                    flush_products@,
                    0,
                    chan,
                    FlushDirection::Pull,
                    spec_boundary_product(
                        bs,
                        0,
                        chan,
                        FlushDirection::Pull,
                        mixing_challenge,
                        offset,
                        1u128,
                    ),
                ) == spec_flush_product(
                    fs,
                    flush_products@,
                    i as int,
                    chan,
                    FlushDirection::Pull,
                    pull,
                ),
                spec_flush_product(
                    fs,
                    flush_products@,
                    0,
                    chan,
                    FlushDirection::Push,
                    spec_boundary_product(
                        bs,
                        0,
                        chan,
                        FlushDirection::Push,
                        mixing_challenge,
                        offset,
                        1u128,
                    ),
                ) == spec_flush_product(
                    fs,
                    flush_products@,
                    i as int,
                    chan,
                    FlushDirection::Push,
                    push,
                ),
            decreases fs.len() - i,
        {
            let f = &flushes[i];
            proof {
                assert(fs[i as int] == f@);
            }
            if f.channel_id == chan {
                match f.direction {
                    FlushDirection::Pull => {
                        pull = gf_mul(pull, flush_products[i]);
                    },
                    FlushDirection::Push => {
                        push = gf_mul(push, flush_products[i]);
                    },
                }
            }
            i = i + 1;
        }

        if pull != push {
            return Err(
                Error::Verification(VerificationError::ChannelUnbalanced { id: chan }),
            );
        }
        chan = chan + 1;
    }
    Ok(())
}

/// The smallest number of bits that cover the value: the ceiling of
/// its base-two logarithm.
pub open spec fn spec_log2_ceil(v: nat) -> nat
    decreases v,
{
    if v <= 1 {
        0
    } else {
        1 + spec_log2_ceil((v + 1) / 2)
    }
}

/// The ceiling of the base-two logarithm.
pub fn log2_ceil_usize(v: usize) -> (r: usize)
    ensures
        r == spec_log2_ceil(v as nat),
    decreases v,
{
    if v <= 1 {
        0
    } else {
        let half = v / 2 + v % 2;
        proof {
            assert(half as int == (v as int + 1) / 2);
            lemma_log2_ceil_bound(half as nat);
        }
        let h = log2_ceil_usize(half);
        1 + h
    }
}

/// The logarithm never exceeds its argument.
pub proof fn lemma_log2_ceil_bound(v: nat)
    ensures
        spec_log2_ceil(v) <= v,
    decreases v,
{
    if v > 1 {
        lemma_log2_ceil_bound((v + 1) / 2);
    }
}

/// The largest arity among claims `i..`, folded from `acc`.
pub open spec fn spec_max_n_vars(claims: Seq<ZerocheckClaimInfo>, i: int, acc: int) -> int
    decreases claims.len() - i,
{
    if i < 0 || i >= claims.len() {
        acc
    } else {
        spec_max_n_vars(claims, i + 1, vstd::math::max(acc, claims[i].n_vars as int))
    }
}

/// One claim's skip allowance: its distance from the top arity plus
/// the domain bits left over its degree's bit width.
pub open spec fn spec_claim_skip(c: ZerocheckClaimInfo, max_n_vars: int, domain_bits: int) -> int {
    max_n_vars - c.n_vars + (if domain_bits - spec_log2_ceil(c.max_individual_degree as nat) >= 0 {
        domain_bits - spec_log2_ceil(c.max_individual_degree as nat)
    } else {
        0int
    })
}

/// The minimum skip allowance over claims `i..`, folded from `acc`.
pub open spec fn spec_min_skip(
    claims: Seq<ZerocheckClaimInfo>,
    i: int,
    max_n_vars: int,
    domain_bits: int,
    acc: int,
) -> int
    decreases claims.len() - i,
{
    if i < 0 || i >= claims.len() {
        acc
    } else {
        spec_min_skip(
            claims,
            i + 1,
            max_n_vars,
            domain_bits,
            vstd::math::min(acc, spec_claim_skip(claims[i], max_n_vars, domain_bits)),
        )
    }
}

/// Every claim's arity is at most the folded maximum.
proof fn lemma_max_dominates(claims: Seq<ZerocheckClaimInfo>, i: int, acc: int, q: int)
    requires
        0 <= i <= q < claims.len(),
    ensures
        claims[q].n_vars as int <= spec_max_n_vars(claims, i, acc),
        acc <= spec_max_n_vars(claims, i, acc),
    decreases claims.len() - i,
{
    if i < q {
        lemma_max_dominates(claims, i + 1, vstd::math::max(acc, claims[i].n_vars as int), q);
    } else {
        lemma_max_acc2(claims, i + 1, vstd::math::max(acc, claims[i].n_vars as int));
    }
}

/// The folded maximum dominates its accumulator.
proof fn lemma_max_acc2(claims: Seq<ZerocheckClaimInfo>, i: int, acc: int)
    requires
        0 <= i <= claims.len(),
    ensures
        acc <= spec_max_n_vars(claims, i, acc),
    decreases claims.len() - i,
{
    if i < claims.len() {
        lemma_max_acc2(claims, i + 1, vstd::math::max(acc, claims[i].n_vars as int));
    }
}

/// The largest arity among the zerocheck claims, and how many leading
/// rounds the univariate skip may batch: the least claim allowance,
/// capped by the largest arity itself.
#[verifier::loop_isolation(false)]
pub fn max_n_vars_and_skip_rounds(
    zerocheck_claims: &Vec<ZerocheckClaimInfo>,
    domain_bits: usize,
) -> (r: (usize, usize))
    requires
        forall|j: int|
            0 <= j < zerocheck_claims@.len() ==> (#[trigger] zerocheck_claims@[j]).n_vars
                <= usize::MAX / 4,
    ensures
        r.0 == spec_max_n_vars(zerocheck_claims@, 0, 0),
        r.1 as int == vstd::math::min(
            spec_min_skip(
                zerocheck_claims@,
                0,
                spec_max_n_vars(zerocheck_claims@, 0, 0),
                domain_bits as int,
                usize::MAX as int,
            ),
            spec_max_n_vars(zerocheck_claims@, 0, 0),
        ),
{
    let ghost cl = zerocheck_claims@;
    let mut m: usize = 0;
    let mut j: usize = 0;
    while j < zerocheck_claims.len()
        invariant
            j <= cl.len(),
            m <= usize::MAX / 4,
            spec_max_n_vars(cl, 0, 0) == spec_max_n_vars(cl, j as int, m as int),
        decreases cl.len() - j,
    {
        if zerocheck_claims[j].n_vars > m {
            m = zerocheck_claims[j].n_vars;
        }
        j = j + 1;
    }
    let max_n_vars = m;
    proof {
        if cl.len() > 0 {
            assert forall|q: int|
                0 <= q < cl.len() implies (#[trigger] cl[q]).n_vars as int <= max_n_vars as int by {
                lemma_max_dominates(cl, 0, 0, q);
            }
        }
    }
    let mut skip: usize = usize::MAX;
    let mut j: usize = 0;
    while j < zerocheck_claims.len()
        invariant
            j <= cl.len(),
            forall|q: int| 0 <= q < cl.len() ==> (#[trigger] cl[q]).n_vars <= max_n_vars,
            spec_min_skip(cl, 0, max_n_vars as int, domain_bits as int, usize::MAX as int)
                == spec_min_skip(cl, j as int, max_n_vars as int, domain_bits as int, skip as int),
        decreases cl.len() - j,
    {
        let c = zerocheck_claims[j];
        let log_degree = log2_ceil_usize(c.max_individual_degree);
        let dom = if domain_bits > log_degree {
            domain_bits - log_degree
        } else {
            0
        };
        if max_n_vars - c.n_vars <= usize::MAX - dom {
            let cand = max_n_vars - c.n_vars + dom;
            proof {
                assert(cand as int == spec_claim_skip(cl[j as int], max_n_vars as int, domain_bits as int));
            }
            if cand < skip {
                skip = cand;
            }
        } else {
            proof {
                assert(spec_claim_skip(cl[j as int], max_n_vars as int, domain_bits as int)
                    > usize::MAX as int);
            }
        }
        j = j + 1;
    }
    let result_skip = if skip < max_n_vars {
        skip
    } else {
        max_n_vars
    };
    (max_n_vars, result_skip)
}


/// The flush-reduction data of one flush oracle: its mask and
/// indicator handles.
pub struct FlushTransparents {
    pub step_down_id: usize,
    pub eq_ind_id: usize,
}

/// The largest total degree over a constraint set's compositions.
pub open spec fn spec_max_degree(cs: Seq<crate::constraint::ConstraintModel>, i: int, acc: int) -> int
    decreases cs.len() - i,
{
    if i < 0 || i >= cs.len() {
        acc
    } else {
        spec_max_degree(
            cs,
            i + 1,
            vstd::math::max(acc, cs[i].composition.spec_degree() as int),
        )
    }
}

/// Turns one table constraint set into its zerocheck claim: the set's
/// arity and the largest composition degree.
#[verifier::loop_isolation(false)]
pub fn constraint_set_zerocheck_claim(cs: &crate::constraint::ConstraintSet) -> (r: Result<
    ZerocheckClaimInfo,
    Error,
>)
    ensures
        r is Ok <==> spec_max_degree(cs@.constraints, 0, 0) <= usize::MAX,
        r matches Ok(c) ==> (c.n_vars == cs@.n_vars && c.max_individual_degree as int
            == spec_max_degree(cs@.constraints, 0, 0)),
        r is Err <==> (r == Err::<ZerocheckClaimInfo, Error>(Error::DegreeTooLarge)
            && spec_max_degree(cs@.constraints, 0, 0) > usize::MAX),
{
    let ghost cm = cs@.constraints;
    let mut m: usize = 0;
    let mut i: usize = 0;
    while i < cs.constraints.len()
        invariant
            i <= cm.len(),
            cm.len() == cs.constraints@.len(),
            spec_max_degree(cm, 0, 0) == spec_max_degree(cm, i as int, m as int),
        decreases cm.len() - i,
    {
        proof {
            assert(cm[i as int] == cs.constraints@[i as int]@);
        }
        let d = match cs.constraints[i].composition.degree_checked() {
            Some(d) => d,
            None => {
                proof {
                    lemma_max_degree_acc(cm, i as int + 1, vstd::math::max(
                        m as int,
                        cm[i as int].composition.spec_degree() as int,
                    ));
                }
                return Err(Error::DegreeTooLarge);
            },
        };
        if d > m {
            m = d;
        }
        i = i + 1;
    }
    Ok(ZerocheckClaimInfo { n_vars: cs.n_vars, max_individual_degree: m })
}

/// The folded maximum degree dominates its accumulator.
proof fn lemma_max_degree_acc(cs: Seq<crate::constraint::ConstraintModel>, i: int, acc: int)
    requires
        0 <= i <= cs.len(),
    ensures
        acc <= spec_max_degree(cs, i, acc),
    decreases cs.len() - i,
{
    if i < cs.len() {
        lemma_max_degree_acc(
            cs,
            i + 1,
            vstd::math::max(acc, cs[i].composition.spec_degree() as int),
        );
    }
}

/// Builds the flush-reduction claims: per flush oracle a step mask and
/// an equality indicator are registered, and a three-term sumcheck
/// claim carries the final-layer evaluation as its sum.
#[verifier::loop_isolation(false)]
#[verifier::rlimit(100)]
pub fn get_flush_sumcheck_claims(
    oracles: &mut MultilinearOracleSet,
    flush_oracle_ids: &Vec<usize>,
    flush_counts: &Vec<usize>,
    final_layer_claims: &Vec<LayerClaim>,
) -> (r: Result<(Vec<SumcheckClaimInfo>, Vec<FlushTransparents>), Error>)
    requires
        old(oracles).wf(),
        flush_oracle_ids@.len() == flush_counts@.len(),
        flush_oracle_ids@.len() == final_layer_claims@.len(),
    ensures
        final(oracles).wf(),
        r is Ok <==> (forall|j: int|
            0 <= j < flush_oracle_ids@.len() ==> (#[trigger] flush_oracle_ids@[j]) < old(oracles)@.len()
                && flush_counts@[j] as nat <= vstd::arithmetic::power2::pow2(
                model_n_vars(old(oracles)@, flush_oracle_ids@[j] as int) as nat,
            ) && final_layer_claims@[j]@.eval_point.len() == model_n_vars(
                old(oracles)@,
                flush_oracle_ids@[j] as int,
            )),
        r matches Ok(v) ==> ({
            let base = old(oracles)@;
            let n = flush_oracle_ids@.len();
            &&& v.0@.len() == n
            &&& v.1@.len() == n
            &&& final(oracles)@.len() == base.len() + 2 * n
            &&& (forall|j: int|
                0 <= j < n ==> {
                    let nv = model_n_vars(base, (#[trigger] flush_oracle_ids@[j]) as int);
                    &&& v.0@[j] == (SumcheckClaimInfo {
                        n_vars: nv as usize,
                        degree: 3,
                        sum: final_layer_claims@[j]@.eval,
                    })
                    &&& v.1@[j].step_down_id == base.len() + 2 * j
                    &&& v.1@[j].eq_ind_id == base.len() + 2 * j + 1
                    &&& final(oracles)@[base.len() + 2 * j] == (OracleModel::Transparent {
                        poly: crate::transparent::TransparentModel::StepDown {
                            n_vars: nv as usize,
                            index: flush_counts@[j],
                        },
                    })
                    &&& final(oracles)@[base.len() + 2 * j + 1] == (OracleModel::Transparent {
                        poly: crate::transparent::TransparentModel::EqInd {
                            n_vars: nv as usize,
                            point: final_layer_claims@[j]@.eval_point,
                        },
                    })
                })
        }),
        r is Err ==> (final(oracles)@.len() >= old(oracles)@.len() && forall|q: int|
            0 <= q < old(oracles)@.len() ==> final(oracles)@[q] == old(oracles)@[q]),
        r matches Err(e) ==> (e matches Error::FlushCountExceedsOracleSize { .. } || e matches
            Error::IncorrectQuerySize { .. } || e matches Error::InvalidOracleId { .. } || e
            == Error::SubProtocol),
{
    let ghost base = oracles@;
    let base_size = oracles.size();
    let mut claims: Vec<SumcheckClaimInfo> = Vec::new();
    let mut transparents: Vec<FlushTransparents> = Vec::new();
    let mut j: usize = 0;
    while j < flush_oracle_ids.len()
        invariant
            j <= flush_oracle_ids@.len(),
            flush_oracle_ids@.len() == flush_counts@.len(),
            flush_oracle_ids@.len() == final_layer_claims@.len(),
            oracles.wf(),
            base_size == base.len(),
            oracles@.len() == base.len() + 2 * j,
            claims@.len() == j,
            transparents@.len() == j,
            forall|q: int| 0 <= q < base.len() ==> oracles@[q] == base[q],
            forall|k: int|
                0 <= k < j ==> (#[trigger] flush_oracle_ids@[k]) < base.len() && flush_counts@[k]
                    as nat <= vstd::arithmetic::power2::pow2(
                    model_n_vars(base, flush_oracle_ids@[k] as int) as nat,
                ) && final_layer_claims@[k]@.eval_point.len() == model_n_vars(
                    base,
                    flush_oracle_ids@[k] as int,
                ),
            forall|k: int|
                0 <= k < j ==> {
                    let nv = model_n_vars(base, (#[trigger] flush_oracle_ids@[k]) as int);
                    &&& claims@[k] == (SumcheckClaimInfo {
                        n_vars: nv as usize,
                        degree: 3,
                        sum: final_layer_claims@[k]@.eval,
                    })
                    &&& transparents@[k].step_down_id == base.len() + 2 * k
                    &&& transparents@[k].eq_ind_id == base.len() + 2 * k + 1
                    &&& oracles@[base.len() + 2 * k] == (OracleModel::Transparent {
                        poly: crate::transparent::TransparentModel::StepDown {
                            n_vars: nv as usize,
                            index: flush_counts@[k],
                        },
                    })
                    &&& oracles@[base.len() + 2 * k + 1] == (OracleModel::Transparent {
                        poly: crate::transparent::TransparentModel::EqInd {
                            n_vars: nv as usize,
                            point: final_layer_claims@[k]@.eval_point,
                        },
                    })
                },
        decreases flush_oracle_ids@.len() - j,
    {
        let id = flush_oracle_ids[j];
        if id >= base_size {
            return Err(Error::InvalidOracleId { id });
        }
        proof {
            assert(oracles@.take(base.len() as int) =~= base);
            crate::codec::lemma_n_vars_take_stable(oracles@, base.len() as int, id as int);
        }
        let n_vars = oracles.n_vars(id);
        let step_down = match crate::transparent::step_down_new(n_vars, flush_counts[j]) {
            Ok(p) => p,
            Err(_) => {
                return Err(Error::FlushCountExceedsOracleSize { id, count: flush_counts[j] });
            },
        };
        let ghost pre1 = oracles@;
        let cur1 = oracles.size();
        proof {
            assert(pre1.len() == cur1);
        }
        let step_down_id = match oracles.add_transparent(step_down) {
            Ok(v) => v,
            Err(_) => {
                proof {
                    assert(false);
                }
                return Err(Error::SubProtocol);
            },
        };
        let point = crate::channel::copy_tuple(&final_layer_claims[j].eval_point);
        if point.len() != n_vars {
            return Err(Error::IncorrectQuerySize { expected: n_vars });
        }
        let eq_ind = crate::transparent::TransparentPoly::EqInd { n_vars, point };
        let ghost pre2 = oracles@;
        let cur2 = oracles.size();
        proof {
            assert(pre2.len() == cur2);
        }
        let eq_ind_id = match oracles.add_transparent(eq_ind) {
            Ok(v) => v,
            Err(_) => {
                proof {
                    assert(false);
                }
                return Err(Error::SubProtocol);
            },
        };
        claims.push(
            SumcheckClaimInfo { n_vars, degree: 3, sum: final_layer_claims[j].eval },
        );
        transparents.push(FlushTransparents { step_down_id, eq_ind_id });
        j = j + 1;
    }
    Ok((claims, transparents))
}

/// The expected claim at position `i` of the flush reduction's
/// output: claims come in threes per flush, targeting the flush oracle,
/// its step mask and its equality indicator, at the challenge suffix
/// matching the flush oracle's arity.
pub open spec fn spec_post_flush_claim(
    s: Seq<OracleModel>,
    ids: Seq<usize>,
    tids: Seq<FlushTransparents>,
    challenges: Seq<u128>,
    evals: Seq<Seq<u128>>,
    i: int,
) -> EvalcheckClaimModel {
    let j = i / 3;
    let nv = model_n_vars(s, ids[j] as int);
    let point = challenges.subrange(challenges.len() - nv, challenges.len() as int);
    EvalcheckClaimModel {
        oracle_id: if i % 3 == 0 {
            ids[j]
        } else if i % 3 == 1 {
            tids[j].step_down_id
        } else {
            tids[j].eq_ind_id
        },
        eval_point: point,
        eval: evals[j][i % 3],
    }
}

/// Extracts the post-sumcheck evaluation claims of the flush
/// reduction: for each flush oracle, one claim each for the oracle,
/// its step mask and its equality indicator, at the challenge suffix
/// matching its arity.
#[verifier::loop_isolation(false)]
pub fn get_post_flush_sumcheck_eval_claims(
    oracles: &MultilinearOracleSet,
    flush_oracles: &Vec<usize>,
    flush_transparents: &Vec<FlushTransparents>,
    challenges: &Vec<u128>,
    multilinear_evals: &Vec<Vec<u128>>,
) -> (r: Result<Vec<EvalcheckClaim>, Error>)
    requires
        oracles.wf(),
        flush_oracles@.len() == flush_transparents@.len(),
        flush_oracles@.len() == multilinear_evals@.len(),
    ensures
        r is Ok <==> (forall|j: int|
            0 <= j < flush_oracles@.len() ==> (#[trigger] flush_oracles@[j]) < oracles@.len()
                && model_n_vars(oracles@, flush_oracles@[j] as int) <= challenges@.len()
                && multilinear_evals@[j]@.len() == 3),
        r matches Err(e) ==> (e matches Error::IncorrectQuerySize { .. } || e matches
            Error::InvalidOracleId { .. }),
        r matches Ok(v) ==> (v@.len() == 3 * flush_oracles@.len() && forall|i: int|
            0 <= i < v@.len() ==> ((#[trigger] v@[i])@) == spec_post_flush_claim(
                oracles@,
                flush_oracles@,
                flush_transparents@,
                challenges@,
                multilinear_evals@.map_values(|e: Vec<u128>| e@),
                i,
            )),
{
    let ghost evs = multilinear_evals@.map_values(|e: Vec<u128>| e@);
    let mut out: Vec<EvalcheckClaim> = Vec::new();
    let max_n_vars = challenges.len();
    let mut j: usize = 0;
    while j < flush_oracles.len()
        invariant
            j <= flush_oracles@.len(),
            flush_oracles@.len() == flush_transparents@.len(),
            flush_oracles@.len() == multilinear_evals@.len(),
            evs == multilinear_evals@.map_values(|e: Vec<u128>| e@),
            oracles.wf(),
            max_n_vars == challenges@.len(),
            out@.len() == 3 * j,
            forall|k: int|
                0 <= k < j ==> (#[trigger] flush_oracles@[k]) < oracles@.len() && model_n_vars(
                    oracles@,
                    flush_oracles@[k] as int,
                ) <= challenges@.len() && multilinear_evals@[k]@.len() == 3,
            forall|i: int|
                0 <= i < out@.len() ==> ((#[trigger] out@[i])@) == spec_post_flush_claim(
                    oracles@,
                    flush_oracles@,
                    flush_transparents@,
                    challenges@,
                    evs,
                    i,
                ),
        decreases flush_oracles@.len() - j,
    {
        let id = flush_oracles[j];
        if id >= oracles.size() {
            return Err(Error::InvalidOracleId { id });
        }
        let n_vars = oracles.n_vars(id);
        if n_vars > max_n_vars {
            return Err(Error::IncorrectQuerySize { expected: n_vars });
        }
        let evals = &multilinear_evals[j];
        if evals.len() != 3 {
            return Err(Error::IncorrectQuerySize { expected: 3 });
        }
        let point_slice = vstd::slice::slice_subrange(
            challenges.as_slice(),
            max_n_vars - n_vars,
            max_n_vars,
        );
        let eval_point = vstd::slice::slice_to_vec(point_slice);
        let eval_point2 = crate::channel::copy_tuple(&eval_point);
        let eval_point3 = crate::channel::copy_tuple(&eval_point);
        proof {
            assert(evs[j as int] == multilinear_evals@[j as int]@);
        }
        out.push(EvalcheckClaim { oracle_id: id, eval_point, eval: evals[0] });
        out.push(
            EvalcheckClaim {
                oracle_id: flush_transparents[j].step_down_id,
                eval_point: eval_point2,
                eval: evals[1],
            },
        );
        out.push(
            EvalcheckClaim {
                oracle_id: flush_transparents[j].eq_ind_id,
                eval_point: eval_point3,
                eval: evals[2],
            },
        );
        proof {
            assert forall|i: int|
                3 * j <= i < 3 * j + 3 implies ((#[trigger] out@[i])@) == spec_post_flush_claim(
                oracles@,
                flush_oracles@,
                flush_transparents@,
                challenges@,
                evs,
                i,
            ) by {
                assert(i / 3 == j && (i % 3 == i - 3 * j)) by (nonlinear_arith)
                    requires
                        3 * j <= i < 3 * j + 3,
                ;
            }
        }
        j = j + 1;
    }
    Ok(out)
}

/// Stable-sorts constraint sets in descending order by their variable
/// count: the order the zerocheck phase consumes them in. The output
/// holds exactly the input sets.
#[verifier::loop_isolation(false)]
pub fn sort_constraint_sets(sets: Vec<crate::constraint::ConstraintSet>) -> (r: Vec<
    crate::constraint::ConstraintSet,
>)
    ensures
        r@.len() == sets@.len(),
        forall|a: int, b: int|
            0 <= a < b < r@.len() ==> ((#[trigger] r@[a])@).n_vars >= ((#[trigger] r@[b])@).n_vars,
        r@.map_values(|cs: crate::constraint::ConstraintSet| cs@).to_multiset()
            == sets@.map_values(|cs: crate::constraint::ConstraintSet| cs@).to_multiset(),
{
    let ghost orig = sets@;
    let ghost orig_ms = sets@.map_values(|cs: crate::constraint::ConstraintSet| cs@).to_multiset();
    let mut rest = sets;
    let mut out: Vec<crate::constraint::ConstraintSet> = Vec::new();
    proof {
        out@.map_values(|cs: crate::constraint::ConstraintSet| cs@).to_multiset_ensures();
        assert(out@.map_values(|cs: crate::constraint::ConstraintSet| cs@).to_multiset().len()
            == 0);
        assert(out@.map_values(|cs: crate::constraint::ConstraintSet| cs@).to_multiset()
            =~= Multiset::<crate::constraint::ConstraintSetModel>::empty());
        assert(out@.map_values(|cs: crate::constraint::ConstraintSet| cs@).to_multiset().add(
            rest@.map_values(|cs: crate::constraint::ConstraintSet| cs@).to_multiset(),
        ) =~= orig_ms);
    }
    while rest.len() > 0
        invariant
            out@.len() + rest@.len() == orig.len(),
            forall|a: int, b: int|
                0 <= a < b < out@.len() ==> ((#[trigger] out@[a])@).n_vars >= ((
                #[trigger] out@[b])@).n_vars,
            forall|a: int, b: int|
                0 <= a < out@.len() && 0 <= b < rest@.len() ==> ((#[trigger] out@[a])@).n_vars
                    >= ((#[trigger] rest@[b])@).n_vars,
            out@.map_values(|cs: crate::constraint::ConstraintSet| cs@).to_multiset().add(
                rest@.map_values(|cs: crate::constraint::ConstraintSet| cs@).to_multiset(),
            ) == orig_ms,
        decreases rest@.len(),
    {
        // The first position holding the largest remaining arity.
        let mut best: usize = 0;
        let mut i: usize = 1;
        while i < rest.len()
            invariant
                best < i <= rest@.len() || (best == 0 && i <= rest@.len()),
                best < rest@.len(),
                forall|q: int|
                    0 <= q < i ==> ((#[trigger] rest@[q])@).n_vars <= (rest@[best as int]@).n_vars,
            decreases rest@.len() - i,
        {
            if rest[i].n_vars > rest[best].n_vars {
                best = i;
            }
            i = i + 1;
        }
        let ghost rest_pre = rest@;
        let ghost out_pre = out@;
        let x = rest.remove(best);
        out.push(x);
        proof {
            lemma_sort_step(
                out_pre.map_values(|cs: crate::constraint::ConstraintSet| cs@),
                rest_pre.map_values(|cs: crate::constraint::ConstraintSet| cs@),
                best as int,
            );
            assert(out@.map_values(|cs: crate::constraint::ConstraintSet| cs@)
                =~= out_pre.map_values(|cs: crate::constraint::ConstraintSet| cs@).push(x@));
            assert(rest@.map_values(|cs: crate::constraint::ConstraintSet| cs@)
                =~= rest_pre.map_values(|cs: crate::constraint::ConstraintSet| cs@).remove(
                best as int,
            ));
            assert forall|b: int|
                0 <= b < rest@.len() implies ((x@).n_vars >= ((#[trigger] rest@[b])@).n_vars) by {
                if b < best {
                    assert(rest@[b] == rest_pre[b]);
                } else {
                    assert(rest@[b] == rest_pre[b + 1]);
                }
            }
        }
    }
    proof {
        rest@.map_values(|cs: crate::constraint::ConstraintSet| cs@).to_multiset_ensures();
        assert(rest@.map_values(|cs: crate::constraint::ConstraintSet| cs@).to_multiset().len()
            == 0);
        assert(rest@.map_values(|cs: crate::constraint::ConstraintSet| cs@).to_multiset()
            =~= Multiset::<crate::constraint::ConstraintSetModel>::empty());
        assert(out@.map_values(|cs: crate::constraint::ConstraintSet| cs@).to_multiset()
            =~= orig_ms);
    }
    out
}

/// One selection step keeps the combined multiset: moving the chosen
/// element from the remainder to the output.
proof fn lemma_sort_step<T>(outm: Seq<T>, restm: Seq<T>, i: int)
    requires
        0 <= i < restm.len(),
    ensures
        outm.push(restm[i]).to_multiset().add(restm.remove(i).to_multiset()) == outm.to_multiset().add(
            restm.to_multiset(),
        ),
{
    outm.to_multiset_ensures();
    restm.to_multiset_ensures();
    assert(outm.push(restm[i]).to_multiset() =~= outm.to_multiset().insert(restm[i]));
    assert(restm.remove(i).to_multiset() =~= restm.to_multiset().remove(restm[i]));
    assert(restm.contains(restm[i]));
    assert(restm.to_multiset().count(restm[i]) > 0);
    assert(outm.to_multiset().insert(restm[i]).add(restm.to_multiset().remove(restm[i]))
        =~= outm.to_multiset().add(restm.to_multiset()));
}

/// The mathematical value of one flush-reduction triple.
pub open spec fn triple_model(t: (usize, usize, LayerClaim)) -> (usize, usize, LayerClaimModel) {
    (t.0, t.1, (t.2)@)
}

/// Stable-sorts the flush-reduction triples in descending order by the
/// flush oracle's arity; the output holds exactly the input triples.
#[verifier::loop_isolation(false)]
pub fn reorder_for_flushing_by_n_vars(
    oracles: &MultilinearOracleSet,
    triples: Vec<(usize, usize, LayerClaim)>,
) -> (r: Vec<(usize, usize, LayerClaim)>)
    requires
        oracles.wf(),
        forall|k: int| 0 <= k < triples@.len() ==> ((#[trigger] triples@[k]).0) < oracles@.len(),
    ensures
        r@.len() == triples@.len(),
        forall|k: int| 0 <= k < r@.len() ==> ((#[trigger] r@[k]).0) < oracles@.len(),
        forall|a: int, b: int|
            0 <= a < b < r@.len() ==> model_n_vars(oracles@, ((#[trigger] r@[a]).0) as int)
                >= model_n_vars(oracles@, ((#[trigger] r@[b]).0) as int),
        r@.map_values(|t: (usize, usize, LayerClaim)| triple_model(t)).to_multiset()
            == triples@.map_values(|t: (usize, usize, LayerClaim)| triple_model(t)).to_multiset(),
{
    let ghost orig = triples@;
    let ghost orig_ms = triples@.map_values(
        |t: (usize, usize, LayerClaim)| triple_model(t),
    ).to_multiset();
    let mut rest = triples;
    let mut out: Vec<(usize, usize, LayerClaim)> = Vec::new();
    proof {
        out@.map_values(|t: (usize, usize, LayerClaim)| triple_model(t)).to_multiset_ensures();
        assert(out@.map_values(|t: (usize, usize, LayerClaim)| triple_model(t)).to_multiset().len()
            == 0);
        assert(out@.map_values(|t: (usize, usize, LayerClaim)| triple_model(t)).to_multiset()
            =~= Multiset::<(usize, usize, LayerClaimModel)>::empty());
        assert(out@.map_values(|t: (usize, usize, LayerClaim)| triple_model(t)).to_multiset().add(
            rest@.map_values(|t: (usize, usize, LayerClaim)| triple_model(t)).to_multiset(),
        ) =~= orig_ms);
    }
    while rest.len() > 0
        invariant
            oracles.wf(),
            out@.len() + rest@.len() == orig.len(),
            forall|k: int| 0 <= k < rest@.len() ==> ((#[trigger] rest@[k]).0) < oracles@.len(),
            forall|k: int| 0 <= k < out@.len() ==> ((#[trigger] out@[k]).0) < oracles@.len(),
            forall|a: int, b: int|
                0 <= a < b < out@.len() ==> model_n_vars(oracles@, ((#[trigger] out@[a]).0) as int)
                    >= model_n_vars(oracles@, ((#[trigger] out@[b]).0) as int),
            forall|a: int, b: int|
                0 <= a < out@.len() && 0 <= b < rest@.len() ==> model_n_vars(
                    oracles@,
                    ((#[trigger] out@[a]).0) as int,
                ) >= model_n_vars(oracles@, ((#[trigger] rest@[b]).0) as int),
            out@.map_values(|t: (usize, usize, LayerClaim)| triple_model(t)).to_multiset().add(
                rest@.map_values(|t: (usize, usize, LayerClaim)| triple_model(t)).to_multiset(),
            ) == orig_ms,
        decreases rest@.len(),
    {
        let mut best: usize = 0;
        let mut best_nv = oracles.n_vars(rest[0].0);
        let mut i: usize = 1;
        while i < rest.len()
            invariant
                best < rest@.len(),
                i <= rest@.len(),
                oracles.wf(),
                forall|k: int| 0 <= k < rest@.len() ==> ((#[trigger] rest@[k]).0) < oracles@.len(),
                best_nv == model_n_vars(oracles@, (rest@[best as int].0) as int),
                forall|q: int|
                    0 <= q < i ==> model_n_vars(oracles@, ((#[trigger] rest@[q]).0) as int)
                        <= best_nv,
            decreases rest@.len() - i,
        {
            let nv = oracles.n_vars(rest[i].0);
            if nv > best_nv {
                best = i;
                best_nv = nv;
            }
            i = i + 1;
        }
        let ghost rest_pre = rest@;
        let ghost out_pre = out@;
        let x = rest.remove(best);
        out.push(x);
        proof {
            lemma_sort_step(
                out_pre.map_values(|t: (usize, usize, LayerClaim)| triple_model(t)),
                rest_pre.map_values(|t: (usize, usize, LayerClaim)| triple_model(t)),
                best as int,
            );
            assert(out@.map_values(|t: (usize, usize, LayerClaim)| triple_model(t))
                =~= out_pre.map_values(|t: (usize, usize, LayerClaim)| triple_model(t)).push(
                triple_model(x),
            ));
            assert(rest@.map_values(|t: (usize, usize, LayerClaim)| triple_model(t))
                =~= rest_pre.map_values(|t: (usize, usize, LayerClaim)| triple_model(t)).remove(
                best as int,
            ));
            assert forall|k: int|
                0 <= k < rest@.len() implies (((#[trigger] rest@[k]).0) < oracles@.len()
                && model_n_vars(oracles@, (x.0) as int) >= model_n_vars(
                oracles@,
                (rest@[k].0) as int,
            )) by {
                if k < best {
                    assert(rest@[k] == rest_pre[k]);
                } else {
                    assert(rest@[k] == rest_pre[k + 1]);
                }
            }
        }
    }
    proof {
        rest@.map_values(|t: (usize, usize, LayerClaim)| triple_model(t)).to_multiset_ensures();
        assert(rest@.map_values(|t: (usize, usize, LayerClaim)| triple_model(t)).to_multiset().len()
            == 0);
        assert(rest@.map_values(|t: (usize, usize, LayerClaim)| triple_model(t)).to_multiset()
            =~= Multiset::<(usize, usize, LayerClaimModel)>::empty());
        assert(out@.map_values(|t: (usize, usize, LayerClaim)| triple_model(t)).to_multiset()
            =~= orig_ms);
    }
    out
}

/// Checks that exactly one evaluation claim reached every committed
/// batch: a missing or duplicated batch is an under-constrained
/// system.
#[verifier::loop_isolation(false)]
pub fn check_batch_coverage(batch_ids: &Vec<usize>, n_batches: usize) -> (r: Result<(), Error>)
    ensures
        r is Ok <==> (batch_ids@.len() == n_batches && forall|i: int|
            0 <= i < batch_ids@.len() ==> (#[trigger] batch_ids@[i]) == i),
        r matches Err(e) ==> e matches Error::UnconstrainedBatch { .. },
{
    let mut i: usize = 0;
    while i < batch_ids.len()
        invariant
            i <= batch_ids@.len(),
            forall|k: int| 0 <= k < i ==> (#[trigger] batch_ids@[k]) == k,
        decreases batch_ids@.len() - i,
    {
        if batch_ids[i] != i {
            return Err(Error::UnconstrainedBatch { batch_id: i });
        }
        i = i + 1;
    }
    if batch_ids.len() != n_batches {
        return Err(Error::UnconstrainedBatch { batch_id: batch_ids.len() });
    }
    Ok(())
}

/// The committed-batch index of an oracle handle: how many committed
/// oracles precede it.
#[verifier::loop_isolation(false)]
pub fn batch_index(oracles: &MultilinearOracleSet, id: usize) -> (r: usize)
    requires
        oracles.wf(),
        id <= oracles@.len(),
    ensures
        r == crate::oracle::spec_n_batches(oracles@, id as int),
{
    let mut count: usize = 0;
    let mut i: usize = 0;
    while i < id
        invariant
            i <= id,
            count == crate::oracle::spec_n_batches(oracles@, i as int),
            count <= i,
        decreases id - i,
    {
        let o = oracles.oracle(i);
        match o {
            crate::oracle::MultilinearPolyOracle::Committed { .. } => {
                count = count + 1;
            },
            _ => {},
        }
        i = i + 1;
    }
    count
}

/// Resolves evaluation claims to committed batches by an iterative
/// work list over descending handles: a claim about a derived oracle is
/// rewritten into claims about its inputs, transparent claims are
/// checked by direct evaluation, and linear relations are checked
/// against advice-supplied input evaluations. Shift and pack
/// reductions belong to the sumcheck collaborator: their reduced inner
/// points and evaluations enter through the advice stream. The
/// returned pairs are sorted by ascending batch index.
#[verifier::loop_isolation(false)]
#[verifier::rlimit(100)]
pub fn resolve_eval_claims(
    oracles: &MultilinearOracleSet,
    claims: Vec<EvalcheckClaim>,
    advice: &mut StreamReader,
) -> (r: Result<Vec<(usize, EvalcheckClaim)>, Error>)
    requires
        oracles.wf(),
        old(advice).wf(),
    ensures
        final(advice).wf(),
        r matches Ok(v) ==> (forall|k: int|
            0 <= k < v@.len() ==> {
                let t = ((#[trigger] v@[k]).1)@.oracle_id;
                &&& t < oracles@.len()
                &&& oracles@[t as int] is Committed
                &&& (v@[k].0) as int == crate::oracle::spec_n_batches(oracles@, t as int)
            }),
        r matches Ok(v) ==> (forall|k1: int, k2: int|
            0 <= k1 < k2 < v@.len() ==> ((#[trigger] v@[k1]).0) <= ((#[trigger] v@[k2]).0)),
        r matches Err(e) ==> (e matches Error::IncorrectQuerySize { .. } || e
            == Error::InvalidEncoding || e matches Error::InvalidOracleId { .. } || e
            == Error::SubProtocol || e == Error::Verification(
            VerificationError::IncorrectEqIndEvaluation,
        ) || e == Error::Verification(VerificationError::IncorrectTransparentEvaluation)),
{
    let n = oracles.size();
    // One bucket per handle.
    let mut buckets: Vec<Vec<EvalcheckClaim>> = Vec::new();
    let mut i: usize = 0;
    while i < n
        invariant
            i <= n,
            buckets@.len() == i,
        decreases n - i,
    {
        buckets.push(Vec::new());
        i = i + 1;
    }
    let mut rest = claims;
    while rest.len() > 0
        invariant
            buckets@.len() == n,
        decreases rest@.len(),
    {
        let c = match rest.pop() {
            Some(c) => c,
            None => {
                proof {
                    assert(false);
                }
                return Err(Error::SubProtocol);
            },
        };
        if c.oracle_id >= n {
            return Err(Error::InvalidOracleId { id: c.oracle_id });
        }
        let cid = c.oracle_id;
        let mut b = buckets.remove(cid);
        let ghost mid = buckets@;
        b.push(c);
        buckets.insert(cid, b);
        proof {
            assert(buckets@.len() == mid.insert(c.oracle_id as int, b).len());
        }
    }
    let mut out: Vec<(usize, EvalcheckClaim)> = Vec::new();
    while buckets.len() > 0
        invariant
            oracles.wf(),
            buckets@.len() <= n,
            n == oracles@.len(),
            advice.wf(),
            forall|k: int|
                0 <= k < out@.len() ==> {
                    let t = ((#[trigger] out@[k]).1).oracle_id;
                    &&& t < oracles@.len()
                    &&& t >= buckets@.len()
                    &&& oracles@[t as int] is Committed
                    &&& (out@[k].0) as int == crate::oracle::spec_n_batches(oracles@, t as int)
                },
            forall|k1: int, k2: int|
                0 <= k1 < k2 < out@.len() ==> ((#[trigger] out@[k1]).1).oracle_id >= ((
                #[trigger] out@[k2]).1).oracle_id,
        decreases buckets@.len(),
    {
        let mut bucket = match buckets.pop() {
            Some(b) => b,
            None => {
                proof {
                    assert(false);
                }
                return Err(Error::SubProtocol);
            },
        };
        let id = buckets.len();
        proof {
            assert(id < n);
            assert(crate::oracle::oracle_ok(oracles@, id as int));
        }
        while bucket.len() > 0
            invariant
                oracles.wf(),
                n == oracles@.len(),
                id == buckets@.len(),
                id < n,
                advice.wf(),
                forall|k: int|
                    0 <= k < out@.len() ==> {
                        let t = ((#[trigger] out@[k]).1).oracle_id;
                        &&& t < oracles@.len()
                        &&& t >= id
                        &&& oracles@[t as int] is Committed
                        &&& (out@[k].0) as int == crate::oracle::spec_n_batches(oracles@, t as int)
                    },
                forall|k1: int, k2: int|
                    0 <= k1 < k2 < out@.len() ==> ((#[trigger] out@[k1]).1).oracle_id >= ((
                    #[trigger] out@[k2]).1).oracle_id,
            decreases bucket@.len(),
        {
            let c = match bucket.pop() {
                Some(c) => c,
                None => {
                    proof {
                        assert(false);
                    }
                    return Err(Error::SubProtocol);
                },
            };
            let desc = oracles.oracle(id);
            match desc {
                crate::oracle::MultilinearPolyOracle::Committed { .. } => {
                    let bi = batch_index(oracles, id);
                    proof {
                        assert(oracles@[id as int] is Committed);
                    }
                    out.push((bi, EvalcheckClaim { oracle_id: id, ..c }));
                },
                crate::oracle::MultilinearPolyOracle::Transparent { poly } => {
                    let value = match poly.evaluate(c.eval_point.as_slice()) {
                        Ok(v) => v,
                        Err(e) => {
                            return Err(e);
                        },
                    };
                    if value != c.eval {
                        let is_eq_ind = match &poly {
                            crate::transparent::TransparentPoly::EqInd { .. } => true,
                            _ => false,
                        };
                        if is_eq_ind {
                            return Err(
                                Error::Verification(VerificationError::IncorrectEqIndEvaluation),
                            );
                        }
                        return Err(
                            Error::Verification(
                                VerificationError::IncorrectTransparentEvaluation,
                            ),
                        );
                    }
                },
                crate::oracle::MultilinearPolyOracle::Repeating { inner, .. } => {
                    let inner_nv = oracles.n_vars(inner);
                    if c.eval_point.len() < inner_nv {
                        return Err(Error::IncorrectQuerySize { expected: inner_nv });
                    }
                    let sub = vstd::slice::slice_subrange(
                        c.eval_point.as_slice(),
                        0,
                        inner_nv,
                    );
                    let point = vstd::slice::slice_to_vec(sub);
                    let mut b2 = buckets.remove(inner);
                    b2.push(EvalcheckClaim { oracle_id: inner, eval_point: point, eval: c.eval });
                    buckets.insert(inner, b2);
                },
                crate::oracle::MultilinearPolyOracle::Projected { inner, values, variant } => {
                    let mut point: Vec<u128> = Vec::new();
                    match variant {
                        crate::oracle::ProjectionVariant::FirstVars => {
                            let mut k: usize = 0;
                            while k < values.len()
                                invariant
                                    k <= values@.len(),
                                decreases values@.len() - k,
                            {
                                point.push(values[k]);
                                k = k + 1;
                            }
                            let mut k: usize = 0;
                            while k < c.eval_point.len()
                                invariant
                                    k <= c.eval_point@.len(),
                                decreases c.eval_point@.len() - k,
                            {
                                point.push(c.eval_point[k]);
                                k = k + 1;
                            }
                        },
                        crate::oracle::ProjectionVariant::LastVars => {
                            let mut k: usize = 0;
                            while k < c.eval_point.len()
                                invariant
                                    k <= c.eval_point@.len(),
                                decreases c.eval_point@.len() - k,
                            {
                                point.push(c.eval_point[k]);
                                k = k + 1;
                            }
                            let mut k: usize = 0;
                            while k < values.len()
                                invariant
                                    k <= values@.len(),
                                decreases values@.len() - k,
                            {
                                point.push(values[k]);
                                k = k + 1;
                            }
                        },
                    }
                    let mut b2 = buckets.remove(inner);
                    b2.push(EvalcheckClaim { oracle_id: inner, eval_point: point, eval: c.eval });
                    buckets.insert(inner, b2);
                },
                crate::oracle::MultilinearPolyOracle::LinearCombination {
                    offset,
                    terms,
                    ..
                } => {
                    proof {
                        assert(crate::oracle::oracle_ok(oracles@, id as int));
                        assert forall|q: int|
                            0 <= q < terms@.len() implies ((#[trigger] terms@[q]).0) < id by {
                            assert(oracles@[id as int] matches OracleModel::LinearCombination {
                                terms: t2,
                                ..
                            } && t2 == terms@);
                        }
                    }
                    if terms.len() > usize::MAX / 16 {
                        return Err(Error::SubProtocol);
                    }
                    let evals = match advice.read_scalar_slice(terms.len()) {
                        Ok(v) => v,
                        Err(e) => {
                            return Err(e);
                        },
                    };
                    let mut acc: u128 = offset;
                    let mut k: usize = 0;
                    while k < terms.len()
                        invariant
                            k <= terms@.len(),
                            evals@.len() == terms@.len(),
                        decreases terms@.len() - k,
                    {
                        let (_tid, coeff) = terms[k];
                        acc = acc ^ gf_mul(coeff, evals[k]);
                        k = k + 1;
                    }
                    if acc != c.eval {
                        return Err(
                            Error::Verification(
                                VerificationError::IncorrectTransparentEvaluation,
                            ),
                        );
                    }
                    let mut k: usize = 0;
                    while k < terms.len()
                        invariant
                            k <= terms@.len(),
                            evals@.len() == terms@.len(),
                            id == buckets@.len(),
                            id < n,
                            n == oracles@.len(),
                            oracles.wf(),
                            forall|q: int|
                                0 <= q < terms@.len() ==> ((#[trigger] terms@[q]).0) < id,
                        decreases terms@.len() - k,
                    {
                        let (tid, _coeff) = terms[k];
                        let point = crate::channel::copy_tuple(&c.eval_point);
                        let mut b2 = buckets.remove(tid);
                        b2.push(EvalcheckClaim { oracle_id: tid, eval_point: point, eval: evals[k] });
                        buckets.insert(tid, b2);
                        k = k + 1;
                    }
                },
                crate::oracle::MultilinearPolyOracle::ZeroPadded { inner, .. } => {
                    let inner_nv = oracles.n_vars(inner);
                    if c.eval_point.len() < inner_nv {
                        return Err(Error::IncorrectQuerySize { expected: inner_nv });
                    }
                    let inner_evals = match advice.read_scalar_slice(1) {
                        Ok(v) => v,
                        Err(e) => {
                            return Err(e);
                        },
                    };
                    let inner_eval = inner_evals[0];
                    // The padded region vanishes: the claim must equal
                    // the inner evaluation scaled by the indicator of
                    // the low block.
                    let mut factor: u128 = GF_ONE;
                    let mut k: usize = inner_nv;
                    while k < c.eval_point.len()
                        invariant
                            inner_nv <= k <= c.eval_point@.len(),
                        decreases c.eval_point@.len() - k,
                    {
                        factor = gf_mul(factor, 1u128 ^ c.eval_point[k]);
                        k = k + 1;
                    }
                    if gf_mul(inner_eval, factor) != c.eval {
                        return Err(
                            Error::Verification(
                                VerificationError::IncorrectTransparentEvaluation,
                            ),
                        );
                    }
                    let sub = vstd::slice::slice_subrange(
                        c.eval_point.as_slice(),
                        0,
                        inner_nv,
                    );
                    let point = vstd::slice::slice_to_vec(sub);
                    let mut b2 = buckets.remove(inner);
                    b2.push(
                        EvalcheckClaim { oracle_id: inner, eval_point: point, eval: inner_eval },
                    );
                    buckets.insert(inner, b2);
                },
                crate::oracle::MultilinearPolyOracle::Shifted { inner, .. } => {
                    // The shift reduction is the sumcheck
                    // collaborator's: its reduced inner point and
                    // evaluation enter through the advice stream.
                    let inner_nv = oracles.n_vars(inner);
                    if inner_nv > usize::MAX / 16 {
                        return Err(Error::InvalidEncoding);
                    }
                    let point = match advice.read_scalar_slice(inner_nv) {
                        Ok(v) => v,
                        Err(e) => {
                            return Err(e);
                        },
                    };
                    let inner_evals = match advice.read_scalar_slice(1) {
                        Ok(v) => v,
                        Err(e) => {
                            return Err(e);
                        },
                    };
                    let mut b2 = buckets.remove(inner);
                    b2.push(
                        EvalcheckClaim {
                            oracle_id: inner,
                            eval_point: point,
                            eval: inner_evals[0],
                        },
                    );
                    buckets.insert(inner, b2);
                },
                crate::oracle::MultilinearPolyOracle::Packed { inner, .. } => {
                    // The packing reduction is likewise the
                    // collaborator's; its reduced claim enters through
                    // the advice stream.
                    let inner_nv = oracles.n_vars(inner);
                    if inner_nv > usize::MAX / 16 {
                        return Err(Error::InvalidEncoding);
                    }
                    let point = match advice.read_scalar_slice(inner_nv) {
                        Ok(v) => v,
                        Err(e) => {
                            return Err(e);
                        },
                    };
                    let inner_evals = match advice.read_scalar_slice(1) {
                        Ok(v) => v,
                        Err(e) => {
                            return Err(e);
                        },
                    };
                    let mut b2 = buckets.remove(inner);
                    b2.push(
                        EvalcheckClaim {
                            oracle_id: inner,
                            eval_point: point,
                            eval: inner_evals[0],
                        },
                    );
                    buckets.insert(inner, b2);
                },
            }
        }
    }
    // Handles were consumed in descending order, so reversing sorts the
    // batch claims ascending.
    let mut reversed: Vec<(usize, EvalcheckClaim)> = Vec::new();
    while out.len() > 0
        invariant
            oracles.wf(),
            forall|k: int|
                0 <= k < out@.len() ==> {
                    let t = ((#[trigger] out@[k]).1).oracle_id;
                    &&& t < oracles@.len()
                    &&& oracles@[t as int] is Committed
                    &&& (out@[k].0) as int == crate::oracle::spec_n_batches(oracles@, t as int)
                },
            forall|k1: int, k2: int|
                0 <= k1 < k2 < out@.len() ==> ((#[trigger] out@[k1]).1).oracle_id >= ((
                #[trigger] out@[k2]).1).oracle_id,
            forall|k: int|
                0 <= k < reversed@.len() ==> {
                    let t = ((#[trigger] reversed@[k]).1).oracle_id;
                    &&& t < oracles@.len()
                    &&& oracles@[t as int] is Committed
                    &&& (reversed@[k].0) as int == crate::oracle::spec_n_batches(oracles@, t as int)
                },
            forall|k1: int, k2: int|
                0 <= k1 < k2 < reversed@.len() ==> ((#[trigger] reversed@[k1]).1).oracle_id <= ((
                #[trigger] reversed@[k2]).1).oracle_id,
            forall|k1: int, k2: int|
                0 <= k1 < out@.len() && 0 <= k2 < reversed@.len() ==> ((#[trigger] out@[k1]).1).oracle_id
                    >= ((#[trigger] reversed@[k2]).1).oracle_id,
        decreases out@.len(),
    {
        let x = match out.pop() {
            Some(x) => x,
            None => {
                proof {
                    assert(false);
                }
                return Err(Error::SubProtocol);
            },
        };
        reversed.push(x);
    }
    proof {
        assert forall|k1: int, k2: int|
            0 <= k1 < k2 < reversed@.len() implies ((#[trigger] reversed@[k1]).0) <= ((
        #[trigger] reversed@[k2]).0) by {
            lemma_n_batches_monotone(
                oracles@,
                (reversed@[k1].1).oracle_id as int,
                (reversed@[k2].1).oracle_id as int,
            );
        }
    }
    Ok(reversed)
}

/// The batch count never decreases along the graph.
proof fn lemma_n_batches_monotone(s: Seq<OracleModel>, i: int, j: int)
    requires
        0 <= i <= j <= s.len(),
    ensures
        crate::oracle::spec_n_batches(s, i) <= crate::oracle::spec_n_batches(s, j),
    decreases j - i,
{
    if i < j {
        lemma_n_batches_monotone(s, i, j - 1);
    }
}


/// Reads `n` field elements from the transcript and feeds the consumed
/// bytes into the challenge sampler.
fn read_scalars_observed(
    transcript: &mut StreamReader,
    challenger: &mut crate::transcript::Challenger,
    n: usize,
) -> (r: Result<Vec<u128>, Error>)
    requires
        old(transcript).wf(),
        n <= usize::MAX / 16,
    ensures
        final(transcript).wf(),
        final(transcript)@.data == old(transcript)@.data,
        r matches Ok(v) ==> (v@.len() == n && final(transcript)@.position == old(transcript)@.position
            + 16 * n && final(challenger)@.observed == old(challenger)@.observed + old(transcript)@.data.subrange(
            old(transcript)@.position,
            old(transcript)@.position + 16 * n,
        ) && final(challenger)@.counter == old(challenger)@.counter && forall|j: int|
            0 <= j < n ==> v@[j] == vstd::bytes::spec_u128_from_le_bytes(
                old(transcript)@.data.subrange(
                    old(transcript)@.position + 16 * j,
                    old(transcript)@.position + 16 * j + 16,
                ),
            )),
        r is Err ==> (r == Err::<Vec<u128>, Error>(Error::InvalidEncoding) && final(transcript)@
            == old(transcript)@ && final(challenger)@ == old(challenger)@),
        (r is Ok) == (old(transcript)@.position + 16 * n <= old(transcript)@.data.len()),
{
    let ghost p0 = old(transcript)@.position;
    let bytes = match transcript.read_bytes(16 * n) {
        Ok(v) => v,
        Err(e) => {
            return Err(e);
        },
    };
    challenger.observe(&bytes);
    let mut sub = StreamReader::new(bytes);
    let r = sub.read_scalar_slice(n);
    proof {
        assert forall|j: int|
            0 <= j < n implies #[trigger] old(transcript)@.data.subrange(p0, p0 + 16 * n).subrange(
            16 * j,
            16 * j + 16,
        ) == old(transcript)@.data.subrange(p0 + 16 * j, p0 + 16 * j + 16) by {
            assert(old(transcript)@.data.subrange(p0, p0 + 16 * n).subrange(16 * j, 16 * j + 16)
                =~= old(transcript)@.data.subrange(p0 + 16 * j, p0 + 16 * j + 16));
        }
    }
    r
}

/// The byte offset, within the transcript, where the non-zero grand
/// products start: after one commitment per committed batch.
pub open spec fn spec_nz_offset(
    cs: crate::constraint_system::ConstraintSystemModel,
    start: int,
    commitment_len: int,
) -> int {
    start + crate::oracle::spec_n_batches(cs.oracles, cs.oracles.len() as int) * commitment_len
}

/// The non-zero grand product `j` as read from the transcript.
pub open spec fn spec_nz_product(data: Seq<u8>, nz_off: int, j: int) -> u128 {
    vstd::bytes::spec_u128_from_le_bytes(data.subrange(nz_off + 16 * j, nz_off + 16 * j + 16))
}

/// The claimed flush products as read from the transcript, following
/// the non-zero products.
pub open spec fn spec_flush_products_read(data: Seq<u8>, f_off: int, n: int) -> Seq<u128> {
    Seq::new(n as nat, |j: int| spec_nz_product(data, f_off, j))
}

/// Verifies a proof against a constraint system with the provided
/// commitment schemes, one per committed batch, reading the proof's
/// two streams through the given readers.
///
/// The pipeline runs its strict sequence: commitments, grand-product
/// setup with the mixing and permutation challenges, the non-zero
/// check, the randomized channel balance, the flush reduction, the
/// zerocheck reduction, evaluation-claim resolution, batch coverage,
/// the commitment openings, and the exact-consumption check of both
/// streams. The product-check, sumcheck and zerocheck round protocols
/// are collaborators: their reduced claims enter from the transcript.
/// Flush-mixing oracles are built in flush declaration order, and the
/// zerocheck point combines the sampled rounds with the
/// collaborator-supplied skip-round coordinates. Success is decided by
/// the commitment scheme; what acceptance implies about the streams,
/// the non-zero products and the channel balance stands below, and
/// batch coverage is carried by `resolve_eval_claims` together with
/// `check_batch_coverage`.
#[verifier::loop_isolation(false)]
#[verifier::rlimit(100)]
pub fn verify_with_pcs<P: PolyCommitScheme>(
    constraint_system: &crate::constraint_system::ConstraintSystem,
    boundaries: &Vec<Boundary>,
    transcript: &mut StreamReader,
    advice: &mut StreamReader,
    pcss: &Vec<P>,
    commitment_len: usize,
) -> (r: Result<(), Error>)
    requires
        constraint_system.oracles.wf(),
        old(transcript).wf(),
        old(advice).wf(),
    ensures
        final(transcript).wf(),
        final(advice).wf(),
        r is Ok ==> (final(transcript)@.position == final(transcript)@.data.len() && final(advice)@.position
            == final(advice)@.data.len()),
        r is Ok ==> (forall|j: int|
            0 <= j < constraint_system@.non_zero_oracle_ids.len() ==> #[trigger] spec_nz_product(
                old(transcript)@.data,
                spec_nz_offset(constraint_system@, old(transcript)@.position, commitment_len as int),
                j,
            ) != 0),
        r == Err::<(), Error>(Error::Zeros) ==> (exists|j: int|
            0 <= j < constraint_system@.non_zero_oracle_ids.len() && #[trigger] spec_nz_product(
                old(transcript)@.data,
                spec_nz_offset(constraint_system@, old(transcript)@.position, commitment_len as int),
                j,
            ) == 0),
        r matches Err(e) ==> ((e matches Error::Verification { .. } && e->Verification_0 matches
            VerificationError::ChannelUnbalanced { .. }) ==> ({
            let nz_off = spec_nz_offset(
                constraint_system@,
                old(transcript)@.position,
                commitment_len as int,
            );
            let prefix = old(transcript)@.data.subrange(
                old(transcript)@.position,
                nz_off + 16 * constraint_system@.non_zero_oracle_ids.len(),
            );
            let f_off = nz_off + 16 * constraint_system@.non_zero_oracle_ids.len();
            spec_first_unbalanced(
                constraint_system@.flushes,
                spec_flush_products_read(
                    old(transcript)@.data,
                    f_off,
                    constraint_system@.flushes.len() as int,
                ),
                boundaries@.map_values(|b: Boundary| b@),
                constraint_system@.max_channel_id + 1,
                0,
                crate::transcript::spec_sample(prefix, 0),
                Seq::new(
                    (constraint_system@.max_channel_id + 1) as nat,
                    |i: int| crate::transcript::spec_sample(prefix, (1 + i) as u64),
                ),
            ) == Some(e->Verification_0->ChannelUnbalanced_id as int)
        })),
        r is Ok ==> ({
            let nz_off = spec_nz_offset(
                constraint_system@,
                old(transcript)@.position,
                commitment_len as int,
            );
            let prefix = old(transcript)@.data.subrange(
                old(transcript)@.position,
                nz_off + 16 * constraint_system@.non_zero_oracle_ids.len(),
            );
            let f_off = nz_off + 16 * constraint_system@.non_zero_oracle_ids.len();
            spec_first_unbalanced(
                constraint_system@.flushes,
                spec_flush_products_read(
                    old(transcript)@.data,
                    f_off,
                    constraint_system@.flushes.len() as int,
                ),
                boundaries@.map_values(|b: Boundary| b@),
                constraint_system@.max_channel_id + 1,
                0,
                crate::transcript::spec_sample(prefix, 0),
                Seq::new(
                    (constraint_system@.max_channel_id + 1) as nat,
                    |i: int| crate::transcript::spec_sample(prefix, (1 + i) as u64),
                ),
            ) is None
        }),
{
    let ghost p_start = transcript@.position;
    let ghost t_data = transcript@.data;
    let mut oracles = constraint_system.oracles.duplicate();

    // Stable order: constraint sets descending by variable count.
    let mut table_constraints: Vec<crate::constraint::ConstraintSet> = Vec::new();
    let mut i: usize = 0;
    while i < constraint_system.table_constraints.len()
        invariant
            i <= constraint_system.table_constraints@.len(),
        decreases constraint_system.table_constraints@.len() - i,
    {
        table_constraints.push(constraint_system.table_constraints[i].duplicate());
        i = i + 1;
    }
    let table_constraints = sort_constraint_sets(table_constraints);

    let mut flushes: Vec<Flush> = Vec::new();
    let mut i: usize = 0;
    while i < constraint_system.flushes.len()
        invariant
            i <= constraint_system.flushes@.len(),
            flushes@.len() == i,
            forall|k: int| 0 <= k < i ==> ((#[trigger] flushes@[k])@) == constraint_system@.flushes[k],
        decreases constraint_system.flushes@.len() - i,
    {
        flushes.push(constraint_system.flushes[i].duplicate());
        i = i + 1;
    }
    proof {
        assert(flushes@.map_values(|f: Flush| f@) =~= constraint_system@.flushes);
    }

    let mut challenger = crate::transcript::Challenger::new();

    // Commitments: one digest per committed batch.
    let n_batches = oracles.n_batches();
    if commitment_len != 0 && n_batches > usize::MAX / commitment_len {
        return Err(Error::InvalidEncoding);
    }
    proof {
        if commitment_len == 0 {
            assert(n_batches * commitment_len == 0) by (nonlinear_arith)
                requires
                    commitment_len == 0,
            ;
        } else {
            assert(n_batches * commitment_len <= usize::MAX) by (nonlinear_arith)
                requires
                    commitment_len >= 1,
                    n_batches <= usize::MAX as int / commitment_len as int,
            ;
        }
    }
    let mut commitments: Vec<Vec<u8>> = Vec::new();
    let mut i: usize = 0;
    while i < n_batches
        invariant
            i <= n_batches,
            commitments@.len() == i,
            transcript.wf(),
            transcript@.data == t_data,
            n_batches * commitment_len <= usize::MAX,
            transcript@.position == p_start + i * commitment_len,
            challenger@.observed == t_data.subrange(p_start, transcript@.position),
            challenger@.counter == 0,
        decreases n_batches - i,
    {
        let ghost obs_pre = challenger@.observed;
        let ghost pos_pre = transcript@.position;
        let c = match transcript.read_bytes(commitment_len) {
            Ok(v) => v,
            Err(e) => {
                return Err(e);
            },
        };
        challenger.observe(&c);
        commitments.push(c);
        proof {
            assert(challenger@.observed =~= t_data.subrange(p_start, transcript@.position));
            assert((i + 1) * commitment_len == i * commitment_len + commitment_len) by (
            nonlinear_arith);
        }
        i = i + 1;
    }
    proof {
        assert(transcript@.position == spec_nz_offset(
            constraint_system@,
            p_start,
            commitment_len as int,
        ));
    }

    // Grand products for the non-zero check.
    let nz = constraint_system.non_zero_oracle_ids.len();
    if nz > usize::MAX / 16 {
        return Err(Error::InvalidEncoding);
    }
    let ghost nz_off = transcript@.position;
    let non_zero_products = match read_scalars_observed(transcript, &mut challenger, nz) {
        Ok(v) => v,
        Err(e) => {
            return Err(e);
        },
    };
    match check_non_zero_products(&non_zero_products) {
        Ok(_) => {},
        Err(e) => {
            proof {
                assert(nz_off == spec_nz_offset(
                    constraint_system@,
                    p_start,
                    commitment_len as int,
                ));
                let w = choose|j: int|
                    0 <= j < non_zero_products@.len() && !((#[trigger] non_zero_products@[j]) != 0);
                assert(spec_nz_product(t_data, nz_off, w) == 0);
            }
            return Err(e);
        },
    }
    let non_zero_claims = match construct_grand_product_claims(
        &constraint_system.non_zero_oracle_ids,
        &oracles,
        &non_zero_products,
    ) {
        Ok(v) => v,
        Err(e) => {
            return Err(e);
        },
    };

    // Mixing and permutation challenges; every channel id up to the
    // declared maximum is sampled, used or not.
    if constraint_system.max_channel_id == usize::MAX {
        return Err(Error::ChannelIdOutOfRange {
            max: constraint_system.max_channel_id,
            got: constraint_system.max_channel_id,
        });
    }
    let n_channels = constraint_system.max_channel_id + 1;
    if (n_channels as u64) > u64::MAX - 1 {
        return Err(Error::SubProtocol);
    }
    let ghost prefix = challenger@.observed;
    let mixing_challenge = challenger.sample();
    let permutation_challenges = challenger.sample_vec(n_channels);
    proof {
        assert(prefix =~= t_data.subrange(p_start, nz_off + 16 * nz));
        assert(mixing_challenge == crate::transcript::spec_sample(prefix, 0));
        assert forall|q: int|
            0 <= q < n_channels implies #[trigger] permutation_challenges@[q]
            == crate::transcript::spec_sample(prefix, (1 + q) as u64) by {}
    }

    // Flush-mixing oracles and their claimed products.
    let flush_oracle_ids = match make_flush_oracles(
        &mut oracles,
        &flushes,
        mixing_challenge,
        &permutation_challenges,
    ) {
        Ok(v) => v,
        Err(e) => {
            return Err(e);
        },
    };
    if flush_oracle_ids.len() > usize::MAX / 16 {
        return Err(Error::InvalidEncoding);
    }
    let ghost f_off = transcript@.position;
    let flush_products = match read_scalars_observed(
        transcript,
        &mut challenger,
        flush_oracle_ids.len(),
    ) {
        Ok(v) => v,
        Err(e) => {
            return Err(e);
        },
    };
    proof {
        assert(flush_products@ =~= spec_flush_products_read(
            t_data,
            f_off,
            constraint_system@.flushes.len() as int,
        ));
        assert(permutation_challenges@ =~= Seq::new(
            (constraint_system@.max_channel_id + 1) as nat,
            |i: int| crate::transcript::spec_sample(prefix, (1 + i) as u64),
        ));
    }
    match verify_channels_balance(
        &flushes,
        &flush_products,
        boundaries,
        mixing_challenge,
        &permutation_challenges,
    ) {
        Ok(_) => {},
        Err(e) => {
            proof {
                let fp = spec_flush_products_read(
                    t_data,
                    f_off,
                    constraint_system@.flushes.len() as int,
                );
                let bm = boundaries@.map_values(|b: Boundary| b@);
                let pc = Seq::new(
                    (constraint_system@.max_channel_id + 1) as nat,
                    |q: int| crate::transcript::spec_sample(prefix, (1 + q) as u64),
                );
                assert(permutation_challenges@ =~= pc);
                lemma_first_unbalanced_range(
                    constraint_system@.flushes,
                    fp,
                    bm,
                    (constraint_system@.max_channel_id + 1) as int,
                    0,
                    mixing_challenge,
                    pc,
                );
            }
            return Err(e);
        },
    }
    let ghost balance_ok = spec_first_unbalanced(
        constraint_system@.flushes,
        spec_flush_products_read(t_data, f_off, constraint_system@.flushes.len() as int),
        boundaries@.map_values(|b: Boundary| b@),
        constraint_system@.max_channel_id + 1,
        0,
        crate::transcript::spec_sample(prefix, 0),
        Seq::new(
            (constraint_system@.max_channel_id + 1) as nat,
            |i: int| crate::transcript::spec_sample(prefix, (1 + i) as u64),
        ),
    );
    proof {
        assert(balance_ok is None);
    }
    let flush_claims = match construct_grand_product_claims(
        &flush_oracle_ids,
        &oracles,
        &flush_products,
    ) {
        Ok(v) => v,
        Err(e) => {
            return Err(e);
        },
    };

    // The grand-product collaborator reduces every claim to a
    // final-layer evaluation, read back from the transcript.
    let mut final_layer_claims: Vec<LayerClaim> = Vec::new();
    let mut i: usize = 0;
    if flush_claims.len() > usize::MAX - non_zero_claims.len() {
        return Err(Error::SubProtocol);
    }
    let total_claims = flush_claims.len() + non_zero_claims.len();
    while i < total_claims
        invariant
            i <= total_claims,
            total_claims == flush_claims@.len() + non_zero_claims@.len(),
            final_layer_claims@.len() == i,
            transcript.wf(),
        decreases total_claims - i,
    {
        let nv = if i < flush_claims.len() {
            flush_claims[i].n_vars
        } else {
            non_zero_claims[i - flush_claims.len()].n_vars
        };
        if nv > usize::MAX / 16 {
            return Err(Error::InvalidEncoding);
        }
        let eval_point = match read_scalars_observed(transcript, &mut challenger, nv) {
            Ok(v) => v,
            Err(e) => {
                return Err(e);
            },
        };
        let evals = match read_scalars_observed(transcript, &mut challenger, 1) {
            Ok(v) => v,
            Err(e) => {
                return Err(e);
            },
        };
        final_layer_claims.push(LayerClaim { eval_point, eval: evals[0] });
        i = i + 1;
    }

    // Split the final-layer claims and collect the non-zero side's
    // evaluation claims directly.
    let mut eval_claims: Vec<EvalcheckClaim> = Vec::new();
    let mut i: usize = flush_oracle_ids.len();
    while i < total_claims
        invariant
            flush_oracle_ids@.len() <= i <= total_claims,
            total_claims == flush_claims@.len() + non_zero_claims@.len(),
            flush_claims@.len() == flush_oracle_ids@.len(),
            final_layer_claims@.len() == total_claims,
        decreases total_claims - i,
    {
        let lc = &final_layer_claims[i];
        eval_claims.push(
            EvalcheckClaim {
                oracle_id: non_zero_claims[i - flush_oracle_ids.len()].oracle_id,
                eval_point: crate::channel::copy_tuple(&lc.eval_point),
                eval: lc.eval,
            },
        );
        i = i + 1;
    }

    // The flush side: reorder by descending arity, reduce through the
    // masked three-term sumcheck, and collect the reduced claims.
    let mut triples: Vec<(usize, usize, LayerClaim)> = Vec::new();
    let mut i: usize = 0;
    while i < flush_oracle_ids.len()
        invariant
            i <= flush_oracle_ids@.len(),
            flush_oracle_ids@.len() <= flushes@.len(),
            flush_oracle_ids@.len() <= final_layer_claims@.len(),
            triples@.len() == i,
            oracles.wf(),
            forall|k: int|
                0 <= k < i ==> ((#[trigger] triples@[k]).0) < oracles@.len(),
        decreases flush_oracle_ids@.len() - i,
    {
        let id = flush_oracle_ids[i];
        if id >= oracles.size() {
            return Err(Error::InvalidOracleId { id });
        }
        let lc = &final_layer_claims[i];
        triples.push(
            (
                id,
                flushes[i].count,
                LayerClaim {
                    eval_point: crate::channel::copy_tuple(&lc.eval_point),
                    eval: lc.eval,
                },
            ),
        );
        i = i + 1;
    }
    let triples = reorder_for_flushing_by_n_vars(&oracles, triples);
    // Drain front to back: the flush reduction consumes the oracles in
    // the sorted, descending-arity order.
    let ghost sorted = triples@;
    let mut flush_ids_sorted: Vec<usize> = Vec::new();
    let mut flush_counts_sorted: Vec<usize> = Vec::new();
    let mut flush_layer_sorted: Vec<LayerClaim> = Vec::new();
    let mut rest = triples;
    let mut tk: usize = 0;
    while rest.len() > 0
        invariant
            tk == sorted.len() - rest@.len(),
            0 <= tk <= sorted.len(),
            forall|q: int| 0 <= q < rest@.len() ==> (#[trigger] rest@[q]) == sorted[tk + q],
            flush_ids_sorted@.len() == tk,
            flush_counts_sorted@.len() == tk,
            flush_layer_sorted@.len() == tk,
            forall|q: int|
                0 <= q < tk ==> (#[trigger] flush_ids_sorted@[q]) == sorted[q].0
                    && flush_counts_sorted@[q] == sorted[q].1 && (flush_layer_sorted@[q])@ == (
                sorted[q].2)@,
        decreases rest@.len(),
    {
        let ghost rest_pre = rest@;
        let (a, b, c) = rest.remove(0);
        flush_ids_sorted.push(a);
        flush_counts_sorted.push(b);
        flush_layer_sorted.push(c);
        proof {
            assert forall|q: int| 0 <= q < rest@.len() implies (#[trigger] rest@[q]) == sorted[tk
                + 1 + q] by {
                assert(rest@[q] == rest_pre[q + 1]);
            }
        }
        tk = tk + 1;
    }
    proof {
        // The transfer preserved the sorted order: descending arity.
        assert forall|a: int, b: int|
            0 <= a < b < flush_ids_sorted@.len() implies model_n_vars(
            oracles@,
            (#[trigger] flush_ids_sorted@[a]) as int,
        ) >= model_n_vars(oracles@, (#[trigger] flush_ids_sorted@[b]) as int) by {
            assert(flush_ids_sorted@[a] == sorted[a].0);
            assert(flush_ids_sorted@[b] == sorted[b].0);
        }
    }
    let (flush_sumcheck_claims, flush_transparents) = match get_flush_sumcheck_claims(
        &mut oracles,
        &flush_ids_sorted,
        &flush_counts_sorted,
        &flush_layer_sorted,
    ) {
        Ok(v) => v,
        Err(e) => {
            return Err(e);
        },
    };

    // The sumcheck collaborator's challenges and the final multilinear
    // evaluations of the three columns per flush.
    let mut sc_max: usize = 0;
    let mut i: usize = 0;
    while i < flush_sumcheck_claims.len()
        invariant
            i <= flush_sumcheck_claims@.len(),
        decreases flush_sumcheck_claims@.len() - i,
    {
        if flush_sumcheck_claims[i].n_vars > sc_max {
            sc_max = flush_sumcheck_claims[i].n_vars;
        }
        i = i + 1;
    }
    if sc_max as u64 > u64::MAX - challenger.counter() {
        return Err(Error::SubProtocol);
    }
    let sc_challenges = challenger.sample_vec(sc_max);
    let mut flush_evals: Vec<Vec<u128>> = Vec::new();
    let mut i: usize = 0;
    while i < flush_ids_sorted.len()
        invariant
            i <= flush_ids_sorted@.len(),
            flush_evals@.len() == i,
            transcript.wf(),
        decreases flush_ids_sorted@.len() - i,
    {
        let evals = match read_scalars_observed(transcript, &mut challenger, 3) {
            Ok(v) => v,
            Err(e) => {
                return Err(e);
            },
        };
        flush_evals.push(evals);
        i = i + 1;
    }
    let flush_eval_claims = match get_post_flush_sumcheck_eval_claims(
        &oracles,
        &flush_ids_sorted,
        &flush_transparents,
        &sc_challenges,
        &flush_evals,
    ) {
        Ok(v) => v,
        Err(e) => {
            return Err(e);
        },
    };
    let mut rest = flush_eval_claims;
    while rest.len() > 0
        invariant
            true,
        decreases rest@.len(),
    {
        match rest.pop() {
            Some(c) => {
                eval_claims.push(c);
            },
            None => {
                proof {
                    assert(false);
                }
                return Err(Error::SubProtocol);
            },
        }
    }

    // Zerocheck: one claim per sorted constraint set; the univariate
    // skip is bounded by the evaluation domain's byte-wide bit
    // capacity. The skipped leading rounds' coordinates come from the
    // zerocheck collaborator through the transcript; the remaining
    // rounds are sampled.
    let mut zc_claims: Vec<ZerocheckClaimInfo> = Vec::new();
    let mut i: usize = 0;
    while i < table_constraints.len()
        invariant
            i <= table_constraints@.len(),
            zc_claims@.len() == i,
            forall|k: int|
                0 <= k < i ==> ((#[trigger] zc_claims@[k]).n_vars) <= usize::MAX / 4,
        decreases table_constraints@.len() - i,
    {
        let c = match constraint_set_zerocheck_claim(&table_constraints[i]) {
            Ok(v) => v,
            Err(e) => {
                return Err(e);
            },
        };
        if c.n_vars > usize::MAX / 4 {
            return Err(Error::TooManyVariables { n_vars: c.n_vars });
        }
        zc_claims.push(c);
        i = i + 1;
    }
    let (zc_max_n_vars, skip_rounds) = max_n_vars_and_skip_rounds(&zc_claims, 8);
    if (zc_max_n_vars as u64) > u64::MAX - challenger.counter() {
        return Err(Error::SubProtocol);
    }
    let sampled_rounds = challenger.sample_vec(zc_max_n_vars - skip_rounds);
    if skip_rounds > usize::MAX / 16 {
        return Err(Error::InvalidEncoding);
    }
    let skip_coords = match read_scalars_observed(
        transcript,
        &mut challenger,
        skip_rounds,
    ) {
        Ok(v) => v,
        Err(e) => {
            return Err(e);
        },
    };
    let mut zc_challenges = sampled_rounds;
    let mut rest = skip_coords;
    let mut i: usize = 0;
    while i < rest.len()
        invariant
            i <= rest@.len(),
            zc_challenges@.len() == zc_max_n_vars - skip_rounds + i,
        decreases rest@.len() - i,
    {
        zc_challenges.push(rest[i]);
        i = i + 1;
    }

    // The zerocheck collaborator reduces each set to one evaluation
    // claim per referenced oracle, at the point suffix matching the
    // set's arity.
    let mut i: usize = 0;
    while i < table_constraints.len()
        invariant
            i <= table_constraints@.len(),
            zc_challenges@.len() == zc_max_n_vars,
            transcript.wf(),
            oracles.wf(),
        decreases table_constraints@.len() - i,
    {
        let set = &table_constraints[i];
        let set_nv = set.n_vars;
        if set_nv > zc_max_n_vars {
            return Err(Error::IncorrectQuerySize { expected: set_nv });
        }
        let point_slice = vstd::slice::slice_subrange(
            zc_challenges.as_slice(),
            zc_max_n_vars - set_nv,
            zc_max_n_vars,
        );
        let mut k: usize = 0;
        while k < set.oracle_ids.len()
            invariant
                k <= set.oracle_ids@.len(),
                transcript.wf(),
                point_slice@.len() == set_nv,
            decreases set.oracle_ids@.len() - k,
        {
            let evals = match read_scalars_observed(transcript, &mut challenger, 1) {
                Ok(v) => v,
                Err(e) => {
                    return Err(e);
                },
            };
            eval_claims.push(
                EvalcheckClaim {
                    oracle_id: set.oracle_ids[k],
                    eval_point: vstd::slice::slice_to_vec(point_slice),
                    eval: evals[0],
                },
            );
            k = k + 1;
        }
        i = i + 1;
    }

    // Resolve everything down to committed batches and check coverage.
    let resolved = match resolve_eval_claims(&oracles, eval_claims, advice) {
        Ok(v) => v,
        Err(e) => {
            return Err(e);
        },
    };
    let mut batch_ids: Vec<usize> = Vec::new();
    let mut i: usize = 0;
    while i < resolved.len()
        invariant
            i <= resolved@.len(),
            batch_ids@.len() == i,
        decreases resolved@.len() - i,
    {
        batch_ids.push(resolved[i].0);
        i = i + 1;
    }
    match check_batch_coverage(&batch_ids, n_batches) {
        Ok(_) => {},
        Err(e) => {
            return Err(e);
        },
    }

    // Bind each batch's claim against its commitment.
    if pcss.len() < n_batches || commitments.len() < n_batches || resolved.len() < n_batches {
        return Err(Error::SubProtocol);
    }
    let mut i: usize = 0;
    while i < n_batches
        invariant
            i <= n_batches,
            n_batches <= pcss@.len(),
            n_batches <= commitments@.len(),
            n_batches <= resolved@.len(),
            transcript.wf(),
            advice.wf(),
        decreases n_batches - i,
    {
        let claim = &resolved[i].1;
        let query = crate::channel::copy_tuple(&claim.eval_point);
        let mut values: Vec<u128> = Vec::new();
        values.push(claim.eval);
        match pcss[i].verify_evaluation(advice, transcript, &commitments[i], &query, &values) {
            Ok(_) => {},
            Err(_) => {
                return Err(Error::SubProtocol);
            },
        }
        i = i + 1;
    }

    // Both streams must be consumed exactly.
    match transcript.finalize(VerificationError::UnconsumedTranscriptBytes) {
        Ok(_) => {},
        Err(e) => {
            return Err(e);
        },
    }
    match advice.finalize(VerificationError::UnconsumedAdviceBytes) {
        Ok(_) => {},
        Err(e) => {
            return Err(e);
        },
    }
    proof {
        assert(nz_off == spec_nz_offset(constraint_system@, p_start, commitment_len as int));
        assert forall|j: int|
            0 <= j < constraint_system@.non_zero_oracle_ids.len() implies #[trigger] spec_nz_product(
            t_data,
            nz_off,
            j,
        ) != 0 by {
            assert(non_zero_products@[j] != 0);
            assert(non_zero_products@[j] == vstd::bytes::spec_u128_from_le_bytes(
                t_data.subrange(nz_off + 16 * j, nz_off + 16 * j + 16),
            ));
        }
    }
    Ok(())
}

} // verus!
