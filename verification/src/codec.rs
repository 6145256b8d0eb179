//! The binary codec for persisted structures.
//!
//! All integers are little-endian; sequences carry a `u32` count
//! prefix; field elements occupy sixteen bytes. Decoding consumes a
//! byte stream from a position and yields exactly the value that was
//! encoded: the round-trip laws at the end of the module state this for
//! flushes, proofs and whole constraint systems.
use vstd::bytes::{
    lemma_auto_spec_u32_to_from_le_bytes, lemma_auto_spec_u64_to_from_le_bytes,
    lemma_auto_spec_u128_to_from_le_bytes, spec_u32_to_le_bytes, spec_u32_from_le_bytes,
    spec_u64_to_le_bytes, spec_u64_from_le_bytes, spec_u128_to_le_bytes, spec_u128_from_le_bytes,
    u32_from_le_bytes, u32_to_le_bytes, u64_from_le_bytes, u64_to_le_bytes, u128_from_le_bytes,
    u128_to_le_bytes,
};
use vstd::prelude::*;

use crate::arith::ArithExpr;
use crate::channel::{Flush, FlushDirection, FlushModel};
use crate::constraint::{Constraint, ConstraintModel, ConstraintPredicate, ConstraintSet, ConstraintSetModel};
use crate::constraint_system::{ConstraintSystem, ConstraintSystemModel, Proof, ProofModel};
use crate::error::Error;
use crate::oracle::{MultilinearOracleSet, MultilinearPolyOracle, OracleModel, ProjectionVariant, ShiftVariant, lc_max_level, model_n_vars, model_tower_level};
use crate::transparent::{Constant, TransparentModel, TransparentPoly};

verus! {

/// The four-byte little-endian encoding of a 32-bit count or id.
pub open spec fn enc_u32(v: u32) -> Seq<u8> {
    spec_u32_to_le_bytes(v)
}

/// The eight-byte little-endian encoding of a multiplicity.
pub open spec fn enc_u64(v: u64) -> Seq<u8> {
    spec_u64_to_le_bytes(v)
}

/// The sixteen-byte little-endian encoding of a field element.
pub open spec fn enc_u128(v: u128) -> Seq<u8> {
    spec_u128_to_le_bytes(v)
}

/// Reads a 32-bit little-endian integer at `pos`.
pub open spec fn dec_u32(bytes: Seq<u8>, pos: int) -> Option<(u32, int)> {
    if 0 <= pos && pos + 4 <= bytes.len() {
        Some((spec_u32_from_le_bytes(bytes.subrange(pos, pos + 4)), pos + 4))
    } else {
        None
    }
}

/// Reads a 64-bit little-endian integer at `pos`.
pub open spec fn dec_u64(bytes: Seq<u8>, pos: int) -> Option<(u64, int)> {
    if 0 <= pos && pos + 8 <= bytes.len() {
        Some((spec_u64_from_le_bytes(bytes.subrange(pos, pos + 8)), pos + 8))
    } else {
        None
    }
}

/// Reads a 128-bit little-endian field element at `pos`.
pub open spec fn dec_u128(bytes: Seq<u8>, pos: int) -> Option<(u128, int)> {
    if 0 <= pos && pos + 16 <= bytes.len() {
        Some((spec_u128_from_le_bytes(bytes.subrange(pos, pos + 16)), pos + 16))
    } else {
        None
    }
}

/// Appends the encoding of a 32-bit integer.
pub fn put_u32(out: &mut Vec<u8>, v: u32)
    ensures
        final(out)@ == old(out)@ + enc_u32(v),
{
    let mut bs = u32_to_le_bytes(v);
    out.append(&mut bs);
}

/// Appends the encoding of a 64-bit integer.
pub fn put_u64(out: &mut Vec<u8>, v: u64)
    ensures
        final(out)@ == old(out)@ + enc_u64(v),
{
    let mut bs = u64_to_le_bytes(v);
    out.append(&mut bs);
}

/// Appends the encoding of a field element.
pub fn put_u128(out: &mut Vec<u8>, v: u128)
    ensures
        final(out)@ == old(out)@ + enc_u128(v),
{
    let mut bs = u128_to_le_bytes(v);
    out.append(&mut bs);
}

/// Reads a 32-bit integer, advancing the position.
pub fn get_u32(bytes: &Vec<u8>, pos: &mut usize) -> (r: Result<u32, Error>)
    ensures
        match dec_u32(bytes@, old(pos)@ as int) {
            Some((v, p)) => r == Ok::<u32, Error>(v) && *final(pos) == p,
            None => r == Err::<u32, Error>(Error::InvalidEncoding) && *final(pos) == *old(pos),
        },
{
    if *pos <= bytes.len() && bytes.len() - *pos >= 4 {
        let s = vstd::slice::slice_subrange(bytes.as_slice(), *pos, *pos + 4);
        let v = u32_from_le_bytes(s);
        *pos = *pos + 4;
        Ok(v)
    } else {
        Err(Error::InvalidEncoding)
    }
}

/// Reads a 64-bit integer, advancing the position.
pub fn get_u64(bytes: &Vec<u8>, pos: &mut usize) -> (r: Result<u64, Error>)
    ensures
        match dec_u64(bytes@, old(pos)@ as int) {
            Some((v, p)) => r == Ok::<u64, Error>(v) && *final(pos) == p,
            None => r == Err::<u64, Error>(Error::InvalidEncoding) && *final(pos) == *old(pos),
        },
{
    if *pos <= bytes.len() && bytes.len() - *pos >= 8 {
        let s = vstd::slice::slice_subrange(bytes.as_slice(), *pos, *pos + 8);
        let v = u64_from_le_bytes(s);
        *pos = *pos + 8;
        Ok(v)
    } else {
        Err(Error::InvalidEncoding)
    }
}

/// Reads a field element, advancing the position.
pub fn get_u128(bytes: &Vec<u8>, pos: &mut usize) -> (r: Result<u128, Error>)
    ensures
        match dec_u128(bytes@, old(pos)@ as int) {
            Some((v, p)) => r == Ok::<u128, Error>(v) && *final(pos) == p,
            None => r == Err::<u128, Error>(Error::InvalidEncoding) && *final(pos) == *old(pos),
        },
{
    if *pos <= bytes.len() && bytes.len() - *pos >= 16 {
        let s = vstd::slice::slice_subrange(bytes.as_slice(), *pos, *pos + 16);
        let v = u128_from_le_bytes(s);
        *pos = *pos + 16;
        Ok(v)
    } else {
        Err(Error::InvalidEncoding)
    }
}

/// Decoding inverts encoding for 32-bit integers.
pub proof fn lemma_dec_enc_u32(v: u32, bytes: Seq<u8>, pos: int)
    requires
        0 <= pos,
        pos + 4 <= bytes.len(),
        bytes.subrange(pos, pos + 4) == enc_u32(v),
    ensures
        dec_u32(bytes, pos) == Some((v, pos + 4)),
{
    lemma_auto_spec_u32_to_from_le_bytes();
    assert(spec_u32_to_le_bytes(v).len() == 4);
    assert(spec_u32_from_le_bytes(spec_u32_to_le_bytes(v)) == v);
    assert(dec_u32(bytes, pos)->Some_0.0 == spec_u32_from_le_bytes(enc_u32(v)));
}

/// Decoding inverts encoding for 64-bit integers.
pub proof fn lemma_dec_enc_u64(v: u64, bytes: Seq<u8>, pos: int)
    requires
        0 <= pos,
        pos + 8 <= bytes.len(),
        bytes.subrange(pos, pos + 8) == enc_u64(v),
    ensures
        dec_u64(bytes, pos) == Some((v, pos + 8)),
{
    lemma_auto_spec_u64_to_from_le_bytes();
    assert(spec_u64_from_le_bytes(spec_u64_to_le_bytes(v)) == v);
    assert(dec_u64(bytes, pos)->Some_0.0 == spec_u64_from_le_bytes(enc_u64(v)));
}

/// Decoding inverts encoding for field elements.
pub proof fn lemma_dec_enc_u128(v: u128, bytes: Seq<u8>, pos: int)
    requires
        0 <= pos,
        pos + 16 <= bytes.len(),
        bytes.subrange(pos, pos + 16) == enc_u128(v),
    ensures
        dec_u128(bytes, pos) == Some((v, pos + 16)),
{
    lemma_auto_spec_u128_to_from_le_bytes();
    assert(spec_u128_to_le_bytes(v).len() == 16);
    assert(spec_u128_from_le_bytes(spec_u128_to_le_bytes(v)) == v);
    assert(dec_u128(bytes, pos)->Some_0.0 == spec_u128_from_le_bytes(enc_u128(v)));
}

/// The encodings have their fixed widths.
pub proof fn lemma_enc_widths()
    ensures
        forall|v: u32| (#[trigger] enc_u32(v)).len() == 4,
        forall|v: u64| (#[trigger] enc_u64(v)).len() == 8,
        forall|v: u128| (#[trigger] enc_u128(v)).len() == 16,
{
    lemma_auto_spec_u32_to_from_le_bytes();
    lemma_auto_spec_u64_to_from_le_bytes();
    lemma_auto_spec_u128_to_from_le_bytes();
}

/// Splitting a decoded region: when a range holds a concatenation, its
/// two parts sit in the two sub-ranges.
pub proof fn lemma_split_prefix(bytes: Seq<u8>, pos: int, a: Seq<u8>, b: Seq<u8>)
    requires
        0 <= pos,
        pos + a.len() + b.len() <= bytes.len(),
        bytes.subrange(pos, pos + a.len() + b.len()) == a + b,
    ensures
        bytes.subrange(pos, pos + a.len() as int) == a,
        bytes.subrange(pos + a.len() as int, pos + a.len() + b.len()) == b,
{
    let whole = bytes.subrange(pos, pos + a.len() + b.len());
    assert forall|i: int| 0 <= i < a.len() implies bytes.subrange(pos, pos + a.len() as int)[i]
        == a[i] by {
        assert(whole[i] == (a + b)[i]);
    }
    assert(bytes.subrange(pos, pos + a.len() as int) =~= a);
    assert forall|i: int|
        0 <= i < b.len() implies bytes.subrange(pos + a.len() as int, pos + a.len() + b.len())[i]
        == b[i] by {
        assert(whole[a.len() + i] == (a + b)[a.len() + i]);
    }
    assert(bytes.subrange(pos + a.len() as int, pos + a.len() + b.len()) =~= b);
}

/// The encoding of a list of oracle handles from position `i` on: one
/// 32-bit handle each.
pub open spec fn enc_ids(ids: Seq<usize>, i: int) -> Seq<u8>
    decreases ids.len() - i,
{
    if i < 0 || i >= ids.len() {
        Seq::<u8>::empty()
    } else {
        enc_u32(ids[i] as u32) + enc_ids(ids, i + 1)
    }
}

/// Whether a handle list fits its 32-bit encoding.
pub open spec fn ids_encodable(ids: Seq<usize>) -> bool {
    ids.len() <= u32::MAX && forall|j: int| 0 <= j < ids.len() ==> (#[trigger] ids[j]) <= u32::MAX
}

/// The width of an encoded handle list.
pub proof fn lemma_enc_ids_len(ids: Seq<usize>, i: int)
    requires
        0 <= i <= ids.len(),
    ensures
        enc_ids(ids, i).len() == 4 * (ids.len() - i),
    decreases ids.len() - i,
{
    lemma_enc_widths();
    if i < ids.len() {
        lemma_enc_ids_len(ids, i + 1);
    }
}

/// Reads `n` oracle handles.
pub open spec fn dec_ids(bytes: Seq<u8>, pos: int, n: nat) -> Option<(Seq<usize>, int)>
    decreases n,
{
    if n == 0 {
        Some((Seq::<usize>::empty(), pos))
    } else {
        match dec_u32(bytes, pos) {
            None => None,
            Some((v, p)) => match dec_ids(bytes, p, (n - 1) as nat) {
                None => None,
                Some((rest, p2)) => Some((seq![v as usize] + rest, p2)),
            },
        }
    }
}

/// Decoding inverts encoding for handle lists.
pub proof fn lemma_dec_enc_ids(ids: Seq<usize>, i: int, bytes: Seq<u8>, pos: int)
    requires
        0 <= i <= ids.len(),
        ids_encodable(ids),
        0 <= pos,
        pos + enc_ids(ids, i).len() <= bytes.len(),
        bytes.subrange(pos, pos + enc_ids(ids, i).len()) == enc_ids(ids, i),
    ensures
        dec_ids(bytes, pos, (ids.len() - i) as nat) == Some(
            (ids.skip(i), pos + enc_ids(ids, i).len()),
        ),
    decreases ids.len() - i,
{
    lemma_enc_widths();
    lemma_enc_ids_len(ids, i);
    if i == ids.len() {
        assert(ids.skip(i) =~= Seq::<usize>::empty());
        assert(enc_ids(ids, i).len() == 0);
    } else {
        let a = enc_u32(ids[i] as u32);
        let b = enc_ids(ids, i + 1);
        lemma_enc_ids_len(ids, i + 1);
        lemma_split_prefix(bytes, pos, a, b);
        lemma_dec_enc_u32(ids[i] as u32, bytes, pos);
        lemma_dec_enc_ids(ids, i + 1, bytes, pos + 4);
        assert((ids[i] as u32) as usize == ids[i]);
        assert(ids.skip(i) =~= seq![ids[i]] + ids.skip(i + 1));
    }
}

/// Reads `n` oracle handles into a vector.
#[verifier::loop_isolation(false)]
fn get_ids(bytes: &Vec<u8>, pos: &mut usize, n: u32) -> (r: Result<Vec<usize>, Error>)
    ensures
        match dec_ids(bytes@, *old(pos) as int, n as nat) {
            Some((ids, p)) => r matches Ok(v) && v@ == ids && *final(pos) == p,
            None => r == Err::<Vec<usize>, Error>(Error::InvalidEncoding),
        },
{
    let ghost pos0 = *pos as int;
    let mut out: Vec<usize> = Vec::new();
    let mut i: u32 = 0;
    while i < n
        invariant
            i <= n,
            out@.len() == i,
            dec_ids(bytes@, pos0, n as nat) == (match dec_ids(
                bytes@,
                *pos as int,
                (n - i) as nat,
            ) {
                Some((rest, p)) => Some::<(Seq<usize>, int)>((out@ + rest, p)),
                None => None::<(Seq<usize>, int)>,
            }),
        decreases n - i,
    {
        let ghost out_pre = out@;
        let ghost pos_pre = *pos as int;
        let v = match get_u32(bytes, pos) {
            Ok(v) => v,
            Err(e) => {
                return Err(e);
            },
        };
        out.push(v as usize);
        proof {
            let rest_n = (n - i) as nat;
            assert(dec_ids(bytes@, pos_pre, rest_n) == (match dec_ids(
                bytes@,
                *pos as int,
                (rest_n - 1) as nat,
            ) {
                Some((rest2, p2)) => Some::<(Seq<usize>, int)>((seq![v as usize] + rest2, p2)),
                None => None::<(Seq<usize>, int)>,
            }));
            match dec_ids(bytes@, *pos as int, (rest_n - 1) as nat) {
                Some((rest2, p2)) => {
                    assert(out_pre + (seq![v as usize] + rest2) =~= out@ + rest2);
                },
                None => {},
            }
        }
        i = i + 1;
    }
    proof {
        assert(out@ + Seq::<usize>::empty() =~= out@);
    }
    Ok(out)
}

/// Writes each handle of a list.
#[verifier::loop_isolation(false)]
fn put_ids(out: &mut Vec<u8>, ids: &Vec<usize>)
    requires
        ids_encodable(ids@),
    ensures
        final(out)@ == old(out)@ + enc_ids(ids@, 0),
{
    let mut i: usize = 0;
    while i < ids.len()
        invariant
            i <= ids@.len(),
            out@ + enc_ids(ids@, i as int) == old(out)@ + enc_ids(ids@, 0),
        decreases ids@.len() - i,
    {
        let ghost pre = out@;
        put_u32(out, ids[i] as u32);
        proof {
            assert((ids@[i as int] as u32) as usize == ids@[i as int]);
            assert(pre + (enc_u32(ids@[i as int] as u32) + enc_ids(ids@, i as int + 1)) =~= (pre
                + enc_u32(ids@[i as int] as u32)) + enc_ids(ids@, i as int + 1));
        }
        i = i + 1;
    }
    proof {
        assert(out@ + Seq::<u8>::empty() =~= out@);
    }
}

/// The direction tag: pushes are one, pulls are two.
pub open spec fn dir_tag(d: FlushDirection) -> u32 {
    match d {
        FlushDirection::Push => 1u32,
        FlushDirection::Pull => 2u32,
    }
}

/// Whether a flush fits its encoding: counts and handles are 32-bit.
pub open spec fn flush_encodable(f: FlushModel) -> bool {
    &&& ids_encodable(f.oracles)
    &&& f.channel_id <= u32::MAX
    &&& f.count <= u32::MAX
}

/// The byte encoding of a flush: handle count, handles, channel id,
/// direction tag, row count, multiplicity.
pub open spec fn enc_flush(f: FlushModel) -> Seq<u8> {
    enc_u32(f.oracles.len() as u32) + enc_ids(f.oracles, 0) + enc_u32(f.channel_id as u32)
        + enc_u32(dir_tag(f.direction)) + enc_u32(f.count as u32) + enc_u64(f.multiplicity)
}

/// Reads a flush at `pos`.
pub open spec fn dec_flush(bytes: Seq<u8>, pos: int) -> Option<(FlushModel, int)> {
    match dec_u32(bytes, pos) {
        None => None,
        Some((n, p1)) => match dec_ids(bytes, p1, n as nat) {
            None => None,
            Some((ids, p2)) => match dec_u32(bytes, p2) {
                None => None,
                Some((chan, p3)) => match dec_u32(bytes, p3) {
                    None => None,
                    Some((tag, p4)) => if tag != 1 && tag != 2 {
                        None
                    } else {
                        match dec_u32(bytes, p4) {
                            None => None,
                            Some((count, p5)) => match dec_u64(bytes, p5) {
                                None => None,
                                Some((mult, p6)) => Some(
                                    (
                                        FlushModel {
                                            oracles: ids,
                                            channel_id: chan as usize,
                                            direction: if tag == 1 {
                                                FlushDirection::Push
                                            } else {
                                                FlushDirection::Pull
                                            },
                                            count: count as usize,
                                            multiplicity: mult,
                                        },
                                        p6,
                                    ),
                                ),
                            },
                        }
                    },
                },
            },
        },
    }
}

impl Flush {
    /// Serializes the flush.
    pub fn write(&self, out: &mut Vec<u8>)
        requires
            flush_encodable(self@),
        ensures
            final(out)@ == old(out)@ + enc_flush(self@),
    {
        put_u32(out, self.oracles.len() as u32);
        put_ids(out, &self.oracles);
        put_u32(out, self.channel_id as u32);
        match self.direction {
            FlushDirection::Push => {
                put_u32(out, 1);
            },
            FlushDirection::Pull => {
                put_u32(out, 2);
            },
        }
        put_u32(out, self.count as u32);
        put_u64(out, self.multiplicity);
        proof {
            lemma_concat_assoc6(
                old(out)@,
                enc_u32(self@.oracles.len() as u32),
                enc_ids(self@.oracles, 0),
                enc_u32(self@.channel_id as u32),
                enc_u32(dir_tag(self@.direction)),
                enc_u32(self@.count as u32),
                enc_u64(self@.multiplicity),
            );
        }
    }

    /// Deserializes a flush, advancing the position.
    pub fn read(bytes: &Vec<u8>, pos: &mut usize) -> (r: Result<Flush, Error>)
        ensures
            match dec_flush(bytes@, *old(pos) as int) {
                Some((m, p)) => r matches Ok(v) && v@ == m && *final(pos) == p,
                None => r == Err::<Flush, Error>(Error::InvalidEncoding),
            },
    {
        let n = match get_u32(bytes, pos) {
            Ok(v) => v,
            Err(e) => {
                return Err(e);
            },
        };
        let oracles = match get_ids(bytes, pos, n) {
            Ok(v) => v,
            Err(e) => {
                return Err(e);
            },
        };
        let chan = match get_u32(bytes, pos) {
            Ok(v) => v,
            Err(e) => {
                return Err(e);
            },
        };
        let tag = match get_u32(bytes, pos) {
            Ok(v) => v,
            Err(e) => {
                return Err(e);
            },
        };
        let direction = if tag == 1 {
            FlushDirection::Push
        } else if tag == 2 {
            FlushDirection::Pull
        } else {
            return Err(Error::InvalidEncoding);
        };
        let count = match get_u32(bytes, pos) {
            Ok(v) => v,
            Err(e) => {
                return Err(e);
            },
        };
        let multiplicity = match get_u64(bytes, pos) {
            Ok(v) => v,
            Err(e) => {
                return Err(e);
            },
        };
        Ok(
            Flush {
                oracles,
                channel_id: chan as usize,
                direction,
                count: count as usize,
                multiplicity,
            },
        )
    }
}

/// Concatenation of six buffers onto a prefix associates.
proof fn lemma_concat_assoc6(
    p: Seq<u8>,
    a: Seq<u8>,
    b: Seq<u8>,
    c: Seq<u8>,
    d: Seq<u8>,
    e: Seq<u8>,
    f: Seq<u8>,
)
    ensures
        ((((((p + a) + b) + c) + d) + e) + f) == p + (a + b + c + d + e + f),
{
    assert(((((((p + a) + b) + c) + d) + e) + f) =~= p + (a + b + c + d + e + f));
}

/// Decoding inverts encoding for flushes.
pub proof fn lemma_dec_enc_flush(f: FlushModel, bytes: Seq<u8>, pos: int)
    requires
        flush_encodable(f),
        0 <= pos,
        pos + enc_flush(f).len() <= bytes.len(),
        bytes.subrange(pos, pos + enc_flush(f).len()) == enc_flush(f),
    ensures
        dec_flush(bytes, pos) == Some((f, pos + enc_flush(f).len())),
{
    lemma_enc_widths();
    lemma_enc_ids_len(f.oracles, 0);
    let a1 = enc_u32(f.oracles.len() as u32);
    let a2 = enc_ids(f.oracles, 0);
    let a3 = enc_u32(f.channel_id as u32);
    let a4 = enc_u32(dir_tag(f.direction));
    let a5 = enc_u32(f.count as u32);
    let a6 = enc_u64(f.multiplicity);
    assert(enc_flush(f) =~= a1 + (a2 + a3 + a4 + a5 + a6));
    lemma_split_prefix(bytes, pos, a1, a2 + a3 + a4 + a5 + a6);
    let p1 = pos + 4;
    lemma_dec_enc_u32(f.oracles.len() as u32, bytes, pos);
    assert(a2 + a3 + a4 + a5 + a6 =~= a2 + (a3 + a4 + a5 + a6));
    lemma_split_prefix(bytes, p1, a2, a3 + a4 + a5 + a6);
    let p2 = p1 + a2.len();
    lemma_dec_enc_ids(f.oracles, 0, bytes, p1);
    assert(f.oracles.skip(0) =~= f.oracles);
    assert(a3 + a4 + a5 + a6 =~= a3 + (a4 + a5 + a6));
    lemma_split_prefix(bytes, p2, a3, a4 + a5 + a6);
    let p3 = p2 + 4;
    lemma_dec_enc_u32(f.channel_id as u32, bytes, p2);
    assert(a4 + a5 + a6 =~= a4 + (a5 + a6));
    lemma_split_prefix(bytes, p3, a4, a5 + a6);
    let p4 = p3 + 4;
    lemma_dec_enc_u32(dir_tag(f.direction), bytes, p3);
    lemma_split_prefix(bytes, p4, a5, a6);
    let p5 = p4 + 4;
    lemma_dec_enc_u32(f.count as u32, bytes, p4);
    lemma_dec_enc_u64(f.multiplicity, bytes, p5);
    assert((f.oracles.len() as u32) as nat == f.oracles.len());
    assert((f.channel_id as u32) as usize == f.channel_id);
    assert((f.count as u32) as usize == f.count);
}

/// Whether a proof fits its encoding: both streams are shorter than
/// the 32-bit maximum.
pub open spec fn proof_encodable(p: ProofModel) -> bool {
    p.transcript.len() < u32::MAX && p.advice.len() < u32::MAX
}

/// The byte encoding of a proof: each stream length-prefixed.
pub open spec fn enc_proof(p: ProofModel) -> Seq<u8> {
    enc_u32(p.transcript.len() as u32) + p.transcript + enc_u32(p.advice.len() as u32) + p.advice
}

/// Reads a proof at `pos`.
pub open spec fn dec_proof(bytes: Seq<u8>, pos: int) -> Option<(ProofModel, int)> {
    match dec_u32(bytes, pos) {
        None => None,
        Some((tlen, p1)) => if p1 + tlen <= bytes.len() {
            let transcript = bytes.subrange(p1, p1 + tlen);
            match dec_u32(bytes, p1 + tlen) {
                None => None,
                Some((alen, p2)) => if p2 + alen <= bytes.len() {
                    Some(
                        (
                            ProofModel { transcript, advice: bytes.subrange(p2, p2 + alen) },
                            p2 + alen,
                        ),
                    )
                } else {
                    None
                },
            }
        } else {
            None
        },
    }
}

/// Reads a raw byte block of a known length.
fn get_block(bytes: &Vec<u8>, pos: &mut usize, len: u32) -> (r: Result<Vec<u8>, Error>)
    ensures
        *old(pos) + len <= bytes@.len() ==> (r matches Ok(v) && v@ == bytes@.subrange(
            *old(pos) as int,
            *old(pos) + len,
        ) && *final(pos) == *old(pos) + len),
        *old(pos) + len > bytes@.len() ==> r == Err::<Vec<u8>, Error>(Error::InvalidEncoding)
            && *final(pos) == *old(pos),
{
    if *pos <= bytes.len() && (bytes.len() - *pos) as u64 >= len as u64 {
        let s = vstd::slice::slice_subrange(bytes.as_slice(), *pos, *pos + (len as usize));
        let v = vstd::slice::slice_to_vec(s);
        *pos = *pos + (len as usize);
        Ok(v)
    } else {
        Err(Error::InvalidEncoding)
    }
}

impl Proof {
    /// Serializes the proof; both streams must be shorter than the
    /// 32-bit maximum.
    pub fn write(&self, out: &mut Vec<u8>)
        requires
            proof_encodable(self@),
        ensures
            final(out)@ == old(out)@ + enc_proof(self@),
    {
        put_u32(out, self.transcript.len() as u32);
        append_bytes(out, &self.transcript);
        put_u32(out, self.advice.len() as u32);
        append_bytes(out, &self.advice);
        proof {
            assert((((old(out)@ + enc_u32(self@.transcript.len() as u32)) + self@.transcript)
                + enc_u32(self@.advice.len() as u32)) + self@.advice =~= old(out)@ + enc_proof(
                self@,
            ));
        }
    }

    /// Deserializes a proof, advancing the position.
    pub fn read(bytes: &Vec<u8>, pos: &mut usize) -> (r: Result<Proof, Error>)
        ensures
            match dec_proof(bytes@, *old(pos) as int) {
                Some((m, p)) => r matches Ok(v) && v@ == m && *final(pos) == p,
                None => r == Err::<Proof, Error>(Error::InvalidEncoding),
            },
    {
        let tlen = match get_u32(bytes, pos) {
            Ok(v) => v,
            Err(e) => {
                return Err(e);
            },
        };
        let transcript = match get_block(bytes, pos, tlen) {
            Ok(v) => v,
            Err(e) => {
                return Err(e);
            },
        };
        let alen = match get_u32(bytes, pos) {
            Ok(v) => v,
            Err(e) => {
                return Err(e);
            },
        };
        let advice = match get_block(bytes, pos, alen) {
            Ok(v) => v,
            Err(e) => {
                return Err(e);
            },
        };
        Ok(Proof { transcript, advice })
    }
}

/// Appends a byte buffer.
pub fn append_bytes(out: &mut Vec<u8>, data: &Vec<u8>)
    ensures
        final(out)@ == old(out)@ + data@,
{
    let mut i: usize = 0;
    while i < data.len()
        invariant
            i <= data@.len(),
            out@ == old(out)@ + data@.take(i as int),
        decreases data@.len() - i,
    {
        out.push(data[i]);
        proof {
            assert(old(out)@ + data@.take(i as int + 1) =~= (old(out)@ + data@.take(i as int)).push(
                data@[i as int],
            ));
        }
        i = i + 1;
    }
    proof {
        assert(data@.take(data@.len() as int) == data@);
    }
}

/// Decoding inverts encoding for proofs.
pub proof fn lemma_dec_enc_proof(p: ProofModel, bytes: Seq<u8>, pos: int)
    requires
        proof_encodable(p),
        0 <= pos,
        pos + enc_proof(p).len() <= bytes.len(),
        bytes.subrange(pos, pos + enc_proof(p).len()) == enc_proof(p),
    ensures
        dec_proof(bytes, pos) == Some((p, pos + enc_proof(p).len())),
{
    lemma_enc_widths();
    let a1 = enc_u32(p.transcript.len() as u32);
    let a2 = p.transcript;
    let a3 = enc_u32(p.advice.len() as u32);
    let a4 = p.advice;
    assert(enc_proof(p) =~= a1 + (a2 + a3 + a4));
    lemma_split_prefix(bytes, pos, a1, a2 + a3 + a4);
    lemma_dec_enc_u32(p.transcript.len() as u32, bytes, pos);
    let p1 = pos + 4;
    assert(a2 + a3 + a4 =~= a2 + (a3 + a4));
    lemma_split_prefix(bytes, p1, a2, a3 + a4);
    let p2 = p1 + a2.len();
    assert(a3 + a4 =~= a3 + a4);
    lemma_split_prefix(bytes, p2, a3, a4);
    let p3 = p2 + 4;
    lemma_dec_enc_u32(p.advice.len() as u32, bytes, p2);
    assert((p.transcript.len() as u32) as int == p.transcript.len());
    assert((p.advice.len() as u32) as int == p.advice.len());
    assert(bytes.subrange(p1, p1 + p.transcript.len() as int) == p.transcript);
    assert(bytes.subrange(p3, p3 + p.advice.len() as int) == p.advice);
}


/// The byte encoding of a constraint predicate: a sum target or the
/// zero assertion.
pub open spec fn enc_pred(pr: ConstraintPredicate) -> Seq<u8> {
    match pr {
        ConstraintPredicate::Sum(v) => enc_u32(1) + enc_u128(v),
        ConstraintPredicate::Zero => enc_u32(2),
    }
}

/// Reads a predicate at `pos`.
pub open spec fn dec_pred(bytes: Seq<u8>, pos: int) -> Option<(ConstraintPredicate, int)> {
    match dec_u32(bytes, pos) {
        None => None,
        Some((tag, p1)) => if tag == 1 {
            match dec_u128(bytes, p1) {
                None => None,
                Some((v, p2)) => Some((ConstraintPredicate::Sum(v), p2)),
            }
        } else if tag == 2 {
            Some((ConstraintPredicate::Zero, p1))
        } else {
            None
        },
    }
}

/// Decoding inverts encoding for predicates.
pub proof fn lemma_dec_enc_pred(pr: ConstraintPredicate, bytes: Seq<u8>, pos: int)
    requires
        0 <= pos,
        pos + enc_pred(pr).len() <= bytes.len(),
        bytes.subrange(pos, pos + enc_pred(pr).len()) == enc_pred(pr),
    ensures
        dec_pred(bytes, pos) == Some((pr, pos + enc_pred(pr).len())),
{
    lemma_enc_widths();
    match pr {
        ConstraintPredicate::Sum(v) => {
            lemma_split_prefix(bytes, pos, enc_u32(1), enc_u128(v));
            lemma_dec_enc_u32(1, bytes, pos);
            lemma_dec_enc_u128(v, bytes, pos + 4);
        },
        ConstraintPredicate::Zero => {
            assert(bytes.subrange(pos, pos + 4) == enc_u32(2));
            lemma_dec_enc_u32(2, bytes, pos);
        },
    }
}

/// Whether an expression fits its encoding: variables are 32-bit.
pub open spec fn expr_encodable(e: ArithExpr<7>) -> bool
    decreases e,
{
    match e {
        ArithExpr::Const(_) => true,
        ArithExpr::Var(i) => i <= u32::MAX,
        ArithExpr::Add(l, r) => expr_encodable(*l) && expr_encodable(*r),
        ArithExpr::Mul(l, r) => expr_encodable(*l) && expr_encodable(*r),
        ArithExpr::Pow(b, _) => expr_encodable(*b),
    }
}

/// The byte encoding of an expression: a tag per node, children in
/// order.
pub open spec fn enc_expr(e: ArithExpr<7>) -> Seq<u8>
    decreases e,
{
    match e {
        ArithExpr::Const(c) => enc_u32(1) + enc_u128(c),
        ArithExpr::Var(i) => enc_u32(2) + enc_u32(i as u32),
        ArithExpr::Add(l, r) => enc_u32(3) + enc_expr(*l) + enc_expr(*r),
        ArithExpr::Mul(l, r) => enc_u32(4) + enc_expr(*l) + enc_expr(*r),
        ArithExpr::Pow(b, p) => enc_u32(5) + enc_expr(*b) + enc_u64(p),
    }
}

/// Reads an expression at `pos`.
pub open spec fn dec_expr(bytes: Seq<u8>, pos: int) -> Option<(ArithExpr<7>, int)>
    decreases bytes.len() - pos,
{
    match dec_u32(bytes, pos) {
        None => None,
        Some((tag, p1)) => if tag == 1 {
            match dec_u128(bytes, p1) {
                None => None,
                Some((c, p2)) => Some((ArithExpr::Const(c), p2)),
            }
        } else if tag == 2 {
            match dec_u32(bytes, p1) {
                None => None,
                Some((i, p2)) => Some((ArithExpr::Var(i as usize), p2)),
            }
        } else if tag == 3 || tag == 4 {
            match dec_expr(bytes, p1) {
                None => None,
                Some((l, p2)) => if p2 <= p1 || p2 > bytes.len() {
                    None
                } else {
                    match dec_expr(bytes, p2) {
                        None => None,
                        Some((r0, p3)) => if tag == 3 {
                            Some((ArithExpr::Add(Box::new(l), Box::new(r0)), p3))
                        } else {
                            Some((ArithExpr::Mul(Box::new(l), Box::new(r0)), p3))
                        },
                    }
                },
            }
        } else if tag == 5 {
            match dec_expr(bytes, p1) {
                None => None,
                Some((b, p2)) => match dec_u64(bytes, p2) {
                    None => None,
                    Some((p, p3)) => Some((ArithExpr::Pow(Box::new(b), p), p3)),
                },
            }
        } else {
            None
        },
    }
}

/// A successful expression read consumes at least its tag and lands
/// inside the buffer.
pub proof fn lemma_dec_expr_advances(bytes: Seq<u8>, pos: int)
    requires
        dec_expr(bytes, pos) is Some,
    ensures
        pos + 4 <= dec_expr(bytes, pos)->Some_0.1 <= bytes.len(),
    decreases bytes.len() - pos,
{
    let (tag, p1) = dec_u32(bytes, pos)->Some_0;
    if tag == 3 || tag == 4 {
        lemma_dec_expr_advances(bytes, p1);
        let p2 = dec_expr(bytes, p1)->Some_0.1;
        if !(p2 <= p1 || p2 > bytes.len()) {
            lemma_dec_expr_advances(bytes, p2);
        }
    } else if tag == 5 {
        lemma_dec_expr_advances(bytes, p1);
    }
}

/// Decoding inverts encoding for expressions.
pub proof fn lemma_dec_enc_expr(e: ArithExpr<7>, bytes: Seq<u8>, pos: int)
    requires
        expr_encodable(e),
        0 <= pos,
        pos + enc_expr(e).len() <= bytes.len(),
        bytes.subrange(pos, pos + enc_expr(e).len()) == enc_expr(e),
    ensures
        dec_expr(bytes, pos) == Some((e, pos + enc_expr(e).len())),
    decreases e,
{
    lemma_enc_widths();
    match e {
        ArithExpr::Const(c) => {
            lemma_split_prefix(bytes, pos, enc_u32(1), enc_u128(c));
            lemma_dec_enc_u32(1, bytes, pos);
            lemma_dec_enc_u128(c, bytes, pos + 4);
        },
        ArithExpr::Var(i) => {
            lemma_split_prefix(bytes, pos, enc_u32(2), enc_u32(i as u32));
            lemma_dec_enc_u32(2, bytes, pos);
            lemma_dec_enc_u32(i as u32, bytes, pos + 4);
            assert((i as u32) as usize == i);
        },
        ArithExpr::Add(l, r) => {
            let t = enc_u32(3);
            let el = enc_expr(*l);
            let er = enc_expr(*r);
            assert(enc_expr(e) =~= t + (el + er));
            lemma_split_prefix(bytes, pos, t, el + er);
            lemma_dec_enc_u32(3, bytes, pos);
            lemma_split_prefix(bytes, pos + 4, el, er);
            lemma_dec_enc_expr(*l, bytes, pos + 4);
            lemma_dec_enc_expr(*r, bytes, pos + 4 + el.len());
            lemma_dec_expr_advances(bytes, pos + 4);
        },
        ArithExpr::Mul(l, r) => {
            let t = enc_u32(4);
            let el = enc_expr(*l);
            let er = enc_expr(*r);
            assert(enc_expr(e) =~= t + (el + er));
            lemma_split_prefix(bytes, pos, t, el + er);
            lemma_dec_enc_u32(4, bytes, pos);
            lemma_split_prefix(bytes, pos + 4, el, er);
            lemma_dec_enc_expr(*l, bytes, pos + 4);
            lemma_dec_enc_expr(*r, bytes, pos + 4 + el.len());
            lemma_dec_expr_advances(bytes, pos + 4);
        },
        ArithExpr::Pow(b, p) => {
            let t = enc_u32(5);
            let eb = enc_expr(*b);
            let ep = enc_u64(p);
            assert(enc_expr(e) =~= t + (eb + ep));
            lemma_split_prefix(bytes, pos, t, eb + ep);
            lemma_dec_enc_u32(5, bytes, pos);
            lemma_split_prefix(bytes, pos + 4, eb, ep);
            lemma_dec_enc_expr(*b, bytes, pos + 4);
            lemma_dec_enc_u64(p, bytes, pos + 4 + eb.len());
        },
    }
}

/// Serializes an expression.
pub fn put_expr(out: &mut Vec<u8>, e: &ArithExpr<7>)
    requires
        expr_encodable(*e),
    ensures
        final(out)@ == old(out)@ + enc_expr(*e),
    decreases e,
{
    match e {
        ArithExpr::Const(c) => {
            put_u32(out, 1);
            put_u128(out, *c);
            proof {
                assert((old(out)@ + enc_u32(1)) + enc_u128(*c) =~= old(out)@ + enc_expr(*e));
            }
        },
        ArithExpr::Var(i) => {
            put_u32(out, 2);
            put_u32(out, *i as u32);
            proof {
                assert((old(out)@ + enc_u32(2)) + enc_u32(*i as u32) =~= old(out)@ + enc_expr(*e));
            }
        },
        ArithExpr::Add(l, r) => {
            put_u32(out, 3);
            put_expr(out, l);
            put_expr(out, r);
            proof {
                assert(((old(out)@ + enc_u32(3)) + enc_expr(**l)) + enc_expr(**r) =~= old(out)@
                    + enc_expr(*e));
            }
        },
        ArithExpr::Mul(l, r) => {
            put_u32(out, 4);
            put_expr(out, l);
            put_expr(out, r);
            proof {
                assert(((old(out)@ + enc_u32(4)) + enc_expr(**l)) + enc_expr(**r) =~= old(out)@
                    + enc_expr(*e));
            }
        },
        ArithExpr::Pow(b, p) => {
            put_u32(out, 5);
            put_expr(out, b);
            put_u64(out, *p);
            proof {
                assert(((old(out)@ + enc_u32(5)) + enc_expr(**b)) + enc_u64(*p) =~= old(out)@
                    + enc_expr(*e));
            }
        },
    }
}

/// Deserializes an expression, advancing the position.
pub fn get_expr(bytes: &Vec<u8>, pos: &mut usize) -> (r: Result<ArithExpr<7>, Error>)
    ensures
        match dec_expr(bytes@, *old(pos) as int) {
            Some((e, p)) => r matches Ok(v) && v == e && *final(pos) == p,
            None => r == Err::<ArithExpr<7>, Error>(Error::InvalidEncoding),
        },
    decreases bytes@.len() - *old(pos),
{
    let ghost pos0 = *pos as int;
    let tag = match get_u32(bytes, pos) {
        Ok(v) => v,
        Err(e) => {
            return Err(e);
        },
    };
    if tag == 1 {
        let c = match get_u128(bytes, pos) {
            Ok(v) => v,
            Err(e) => {
                return Err(e);
            },
        };
        Ok(ArithExpr::Const(c))
    } else if tag == 2 {
        let i = match get_u32(bytes, pos) {
            Ok(v) => v,
            Err(e) => {
                return Err(e);
            },
        };
        Ok(ArithExpr::Var(i as usize))
    } else if tag == 3 || tag == 4 {
        let l = match get_expr(bytes, pos) {
            Ok(v) => v,
            Err(e) => {
                return Err(e);
            },
        };
        proof {
            lemma_dec_expr_advances(bytes@, pos0 + 4);
        }
        let r0 = match get_expr(bytes, pos) {
            Ok(v) => v,
            Err(e) => {
                return Err(e);
            },
        };
        if tag == 3 {
            Ok(ArithExpr::Add(Box::new(l), Box::new(r0)))
        } else {
            Ok(ArithExpr::Mul(Box::new(l), Box::new(r0)))
        }
    } else if tag == 5 {
        let b = match get_expr(bytes, pos) {
            Ok(v) => v,
            Err(e) => {
                return Err(e);
            },
        };
        let p = match get_u64(bytes, pos) {
            Ok(v) => v,
            Err(e) => {
                return Err(e);
            },
        };
        Ok(ArithExpr::Pow(Box::new(b), p))
    } else {
        Err(Error::InvalidEncoding)
    }
}


/// The encoding of a list of field values from position `i` on.
pub open spec fn enc_vals(vs: Seq<u128>, i: int) -> Seq<u8>
    decreases vs.len() - i,
{
    if i < 0 || i >= vs.len() {
        Seq::<u8>::empty()
    } else {
        enc_u128(vs[i]) + enc_vals(vs, i + 1)
    }
}

/// The width of an encoded value list.
pub proof fn lemma_enc_vals_len(vs: Seq<u128>, i: int)
    requires
        0 <= i <= vs.len(),
    ensures
        enc_vals(vs, i).len() == 16 * (vs.len() - i),
    decreases vs.len() - i,
{
    lemma_enc_widths();
    if i < vs.len() {
        lemma_enc_vals_len(vs, i + 1);
    }
}

/// Reads `n` field values.
pub open spec fn dec_vals(bytes: Seq<u8>, pos: int, n: nat) -> Option<(Seq<u128>, int)>
    decreases n,
{
    if n == 0 {
        Some((Seq::<u128>::empty(), pos))
    } else {
        match dec_u128(bytes, pos) {
            None => None,
            Some((v, p)) => match dec_vals(bytes, p, (n - 1) as nat) {
                None => None,
                Some((rest, p2)) => Some((seq![v] + rest, p2)),
            },
        }
    }
}

/// Decoding inverts encoding for value lists.
pub proof fn lemma_dec_enc_vals(vs: Seq<u128>, i: int, bytes: Seq<u8>, pos: int)
    requires
        0 <= i <= vs.len(),
        0 <= pos,
        pos + enc_vals(vs, i).len() <= bytes.len(),
        bytes.subrange(pos, pos + enc_vals(vs, i).len()) == enc_vals(vs, i),
    ensures
        dec_vals(bytes, pos, (vs.len() - i) as nat) == Some(
            (vs.skip(i), pos + enc_vals(vs, i).len()),
        ),
    decreases vs.len() - i,
{
    lemma_enc_widths();
    lemma_enc_vals_len(vs, i);
    if i == vs.len() {
        assert(vs.skip(i) =~= Seq::<u128>::empty());
    } else {
        let a = enc_u128(vs[i]);
        let b = enc_vals(vs, i + 1);
        lemma_enc_vals_len(vs, i + 1);
        lemma_split_prefix(bytes, pos, a, b);
        lemma_dec_enc_u128(vs[i], bytes, pos);
        lemma_dec_enc_vals(vs, i + 1, bytes, pos + 16);
        assert(vs.skip(i) =~= seq![vs[i]] + vs.skip(i + 1));
    }
}

/// A successful value read returns exactly `n` values.
pub proof fn lemma_dec_vals_len(bytes: Seq<u8>, pos: int, n: nat)
    requires
        dec_vals(bytes, pos, n) is Some,
    ensures
        dec_vals(bytes, pos, n)->Some_0.0.len() == n,
    decreases n,
{
    if n > 0 {
        let (v, p) = dec_u128(bytes, pos)->Some_0;
        lemma_dec_vals_len(bytes, p, (n - 1) as nat);
    }
}

/// Reads `n` field values into a vector.
#[verifier::loop_isolation(false)]
fn get_vals(bytes: &Vec<u8>, pos: &mut usize, n: u32) -> (r: Result<Vec<u128>, Error>)
    ensures
        match dec_vals(bytes@, *old(pos) as int, n as nat) {
            Some((vs, p)) => r matches Ok(v) && v@ == vs && *final(pos) == p,
            None => r == Err::<Vec<u128>, Error>(Error::InvalidEncoding),
        },
{
    let ghost pos0 = *pos as int;
    let mut out: Vec<u128> = Vec::new();
    let mut i: u32 = 0;
    while i < n
        invariant
            i <= n,
            out@.len() == i,
            dec_vals(bytes@, pos0, n as nat) == (match dec_vals(
                bytes@,
                *pos as int,
                (n - i) as nat,
            ) {
                Some((rest, p)) => Some::<(Seq<u128>, int)>((out@ + rest, p)),
                None => None::<(Seq<u128>, int)>,
            }),
        decreases n - i,
    {
        let ghost out_pre = out@;
        let ghost pos_pre = *pos as int;
        let v = match get_u128(bytes, pos) {
            Ok(v) => v,
            Err(e) => {
                return Err(e);
            },
        };
        out.push(v);
        proof {
            let rest_n = (n - i) as nat;
            assert(dec_vals(bytes@, pos_pre, rest_n) == (match dec_vals(
                bytes@,
                *pos as int,
                (rest_n - 1) as nat,
            ) {
                Some((rest2, p2)) => Some::<(Seq<u128>, int)>((seq![v] + rest2, p2)),
                None => None::<(Seq<u128>, int)>,
            }));
            match dec_vals(bytes@, *pos as int, (rest_n - 1) as nat) {
                Some((rest2, p2)) => {
                    assert(out_pre + (seq![v] + rest2) =~= out@ + rest2);
                },
                None => {},
            }
        }
        i = i + 1;
    }
    proof {
        assert(out@ + Seq::<u128>::empty() =~= out@);
    }
    Ok(out)
}

/// Writes each value of a list.
#[verifier::loop_isolation(false)]
fn put_vals(out: &mut Vec<u8>, vs: &Vec<u128>)
    ensures
        final(out)@ == old(out)@ + enc_vals(vs@, 0),
{
    let mut i: usize = 0;
    while i < vs.len()
        invariant
            i <= vs@.len(),
            out@ + enc_vals(vs@, i as int) == old(out)@ + enc_vals(vs@, 0),
        decreases vs@.len() - i,
    {
        let ghost pre = out@;
        put_u128(out, vs[i]);
        proof {
            assert(pre + (enc_u128(vs@[i as int]) + enc_vals(vs@, i as int + 1)) =~= (pre + enc_u128(
                vs@[i as int],
            )) + enc_vals(vs@, i as int + 1));
        }
        i = i + 1;
    }
    proof {
        assert(out@ + Seq::<u8>::empty() =~= out@);
    }
}

/// Whether a constraint fits its encoding.
pub open spec fn constraint_encodable(c: ConstraintModel) -> bool {
    c.name.len() <= u32::MAX && expr_encodable(c.composition)
}

/// The byte encoding of a constraint: length-prefixed name bytes, the
/// composition, the predicate.
pub open spec fn enc_constraint(c: ConstraintModel) -> Seq<u8> {
    enc_u32(c.name.len() as u32) + c.name + enc_expr(c.composition) + enc_pred(c.predicate)
}

/// Reads a constraint at `pos`.
pub open spec fn dec_constraint(bytes: Seq<u8>, pos: int) -> Option<(ConstraintModel, int)> {
    match dec_u32(bytes, pos) {
        None => None,
        Some((nlen, p1)) => if p1 + nlen <= bytes.len() {
            let name = bytes.subrange(p1, p1 + nlen);
            match dec_expr(bytes, p1 + nlen) {
                None => None,
                Some((comp, p2)) => match dec_pred(bytes, p2) {
                    None => None,
                    Some((pr, p3)) => Some(
                        (ConstraintModel { name, composition: comp, predicate: pr }, p3),
                    ),
                },
            }
        } else {
            None
        },
    }
}

/// Decoding inverts encoding for constraints.
pub proof fn lemma_dec_enc_constraint(c: ConstraintModel, bytes: Seq<u8>, pos: int)
    requires
        constraint_encodable(c),
        0 <= pos,
        pos + enc_constraint(c).len() <= bytes.len(),
        bytes.subrange(pos, pos + enc_constraint(c).len()) == enc_constraint(c),
    ensures
        dec_constraint(bytes, pos) == Some((c, pos + enc_constraint(c).len())),
{
    lemma_enc_widths();
    let a1 = enc_u32(c.name.len() as u32);
    let a2 = c.name;
    let a3 = enc_expr(c.composition);
    let a4 = enc_pred(c.predicate);
    assert(enc_constraint(c) =~= a1 + (a2 + a3 + a4));
    lemma_split_prefix(bytes, pos, a1, a2 + a3 + a4);
    lemma_dec_enc_u32(c.name.len() as u32, bytes, pos);
    let p1 = pos + 4;
    assert(a2 + a3 + a4 =~= a2 + (a3 + a4));
    lemma_split_prefix(bytes, p1, a2, a3 + a4);
    let p2 = p1 + a2.len();
    lemma_split_prefix(bytes, p2, a3, a4);
    lemma_dec_enc_expr(c.composition, bytes, p2);
    lemma_dec_enc_pred(c.predicate, bytes, p2 + a3.len());
    assert((c.name.len() as u32) as int == c.name.len());
    assert(bytes.subrange(p1, p1 + c.name.len() as int) == c.name);
}

/// Serializes a constraint.
fn put_constraint(out: &mut Vec<u8>, c: &Constraint)
    requires
        constraint_encodable(c@),
    ensures
        final(out)@ == old(out)@ + enc_constraint(c@),
{
    put_u32(out, c.name.len() as u32);
    append_bytes(out, &c.name);
    put_expr(out, &c.composition);
    match c.predicate {
        ConstraintPredicate::Sum(v) => {
            put_u32(out, 1);
            put_u128(out, v);
            proof {
                assert(((((old(out)@ + enc_u32(c@.name.len() as u32)) + c@.name) + enc_expr(
                    c@.composition,
                )) + enc_u32(1)) + enc_u128(v) =~= old(out)@ + enc_constraint(c@));
            }
        },
        ConstraintPredicate::Zero => {
            put_u32(out, 2);
            proof {
                assert((((old(out)@ + enc_u32(c@.name.len() as u32)) + c@.name) + enc_expr(
                    c@.composition,
                )) + enc_u32(2) =~= old(out)@ + enc_constraint(c@));
            }
        },
    }
}

/// Deserializes a constraint, advancing the position.
fn get_constraint(bytes: &Vec<u8>, pos: &mut usize) -> (r: Result<Constraint, Error>)
    ensures
        match dec_constraint(bytes@, *old(pos) as int) {
            Some((m, p)) => r matches Ok(v) && v@ == m && *final(pos) == p,
            None => r == Err::<Constraint, Error>(Error::InvalidEncoding),
        },
{
    let nlen = match get_u32(bytes, pos) {
        Ok(v) => v,
        Err(e) => {
            return Err(e);
        },
    };
    let name = match get_block(bytes, pos, nlen) {
        Ok(v) => v,
        Err(e) => {
            return Err(e);
        },
    };
    let composition = match get_expr(bytes, pos) {
        Ok(v) => v,
        Err(e) => {
            return Err(e);
        },
    };
    let tag = match get_u32(bytes, pos) {
        Ok(v) => v,
        Err(e) => {
            return Err(e);
        },
    };
    let predicate = if tag == 1 {
        let v = match get_u128(bytes, pos) {
            Ok(v) => v,
            Err(e) => {
                return Err(e);
            },
        };
        ConstraintPredicate::Sum(v)
    } else if tag == 2 {
        ConstraintPredicate::Zero
    } else {
        return Err(Error::InvalidEncoding);
    };
    Ok(Constraint { name, composition, predicate })
}

/// Whether a constraint set fits its encoding.
pub open spec fn cs_encodable(m: ConstraintSetModel) -> bool {
    &&& m.n_vars <= u32::MAX
    &&& ids_encodable(m.oracle_ids)
    &&& m.constraints.len() <= u32::MAX
    &&& forall|k: int| 0 <= k < m.constraints.len() ==> constraint_encodable(#[trigger] m.constraints[k])
}

/// The encoding of the constraints of a set from position `i` on.
pub open spec fn enc_constraints(cs: Seq<ConstraintModel>, i: int) -> Seq<u8>
    decreases cs.len() - i,
{
    if i < 0 || i >= cs.len() {
        Seq::<u8>::empty()
    } else {
        enc_constraint(cs[i]) + enc_constraints(cs, i + 1)
    }
}

/// Reads `n` constraints.
pub open spec fn dec_constraints(bytes: Seq<u8>, pos: int, n: nat) -> Option<
    (Seq<ConstraintModel>, int),
>
    decreases n,
{
    if n == 0 {
        Some((Seq::<ConstraintModel>::empty(), pos))
    } else {
        match dec_constraint(bytes, pos) {
            None => None,
            Some((c, p)) => match dec_constraints(bytes, p, (n - 1) as nat) {
                None => None,
                Some((rest, p2)) => Some((seq![c] + rest, p2)),
            },
        }
    }
}

/// Decoding inverts encoding for constraint lists.
pub proof fn lemma_dec_enc_constraints(cs: Seq<ConstraintModel>, i: int, bytes: Seq<u8>, pos: int)
    requires
        0 <= i <= cs.len(),
        forall|k: int| 0 <= k < cs.len() ==> constraint_encodable(#[trigger] cs[k]),
        0 <= pos,
        pos + enc_constraints(cs, i).len() <= bytes.len(),
        bytes.subrange(pos, pos + enc_constraints(cs, i).len()) == enc_constraints(cs, i),
    ensures
        dec_constraints(bytes, pos, (cs.len() - i) as nat) == Some(
            (cs.skip(i), pos + enc_constraints(cs, i).len()),
        ),
    decreases cs.len() - i,
{
    if i == cs.len() {
        assert(cs.skip(i) =~= Seq::<ConstraintModel>::empty());
    } else {
        let a = enc_constraint(cs[i]);
        let b = enc_constraints(cs, i + 1);
        lemma_split_prefix(bytes, pos, a, b);
        lemma_dec_enc_constraint(cs[i], bytes, pos);
        lemma_dec_enc_constraints(cs, i + 1, bytes, pos + a.len());
        assert(cs.skip(i) =~= seq![cs[i]] + cs.skip(i + 1));
    }
}

/// The byte encoding of a constraint set: the variable count, the
/// oracle handles, the constraints.
pub open spec fn enc_cs(m: ConstraintSetModel) -> Seq<u8> {
    enc_u32(m.n_vars as u32) + enc_u32(m.oracle_ids.len() as u32) + enc_ids(m.oracle_ids, 0)
        + enc_u32(m.constraints.len() as u32) + enc_constraints(m.constraints, 0)
}

/// Reads a constraint set at `pos`.
pub open spec fn dec_cs(bytes: Seq<u8>, pos: int) -> Option<(ConstraintSetModel, int)> {
    match dec_u32(bytes, pos) {
        None => None,
        Some((nv, p1)) => match dec_u32(bytes, p1) {
            None => None,
            Some((idn, p2)) => match dec_ids(bytes, p2, idn as nat) {
                None => None,
                Some((ids, p3)) => match dec_u32(bytes, p3) {
                    None => None,
                    Some((cn, p4)) => match dec_constraints(bytes, p4, cn as nat) {
                        None => None,
                        Some((cs, p5)) => Some(
                            (
                                ConstraintSetModel {
                                    n_vars: nv as usize,
                                    oracle_ids: ids,
                                    constraints: cs,
                                },
                                p5,
                            ),
                        ),
                    },
                },
            },
        },
    }
}

/// Decoding inverts encoding for constraint sets.
pub proof fn lemma_dec_enc_cs(m: ConstraintSetModel, bytes: Seq<u8>, pos: int)
    requires
        cs_encodable(m),
        0 <= pos,
        pos + enc_cs(m).len() <= bytes.len(),
        bytes.subrange(pos, pos + enc_cs(m).len()) == enc_cs(m),
    ensures
        dec_cs(bytes, pos) == Some((m, pos + enc_cs(m).len())),
{
    lemma_enc_widths();
    lemma_enc_ids_len(m.oracle_ids, 0);
    let a1 = enc_u32(m.n_vars as u32);
    let a2 = enc_u32(m.oracle_ids.len() as u32);
    let a3 = enc_ids(m.oracle_ids, 0);
    let a4 = enc_u32(m.constraints.len() as u32);
    let a5 = enc_constraints(m.constraints, 0);
    assert(enc_cs(m) =~= a1 + (a2 + a3 + a4 + a5));
    lemma_split_prefix(bytes, pos, a1, a2 + a3 + a4 + a5);
    lemma_dec_enc_u32(m.n_vars as u32, bytes, pos);
    let p1 = pos + 4;
    assert(a2 + a3 + a4 + a5 =~= a2 + (a3 + a4 + a5));
    lemma_split_prefix(bytes, p1, a2, a3 + a4 + a5);
    lemma_dec_enc_u32(m.oracle_ids.len() as u32, bytes, p1);
    let p2 = p1 + 4;
    assert(a3 + a4 + a5 =~= a3 + (a4 + a5));
    lemma_split_prefix(bytes, p2, a3, a4 + a5);
    lemma_dec_enc_ids(m.oracle_ids, 0, bytes, p2);
    assert(m.oracle_ids.skip(0) =~= m.oracle_ids);
    let p3 = p2 + a3.len();
    lemma_split_prefix(bytes, p3, a4, a5);
    lemma_dec_enc_u32(m.constraints.len() as u32, bytes, p3);
    let p4 = p3 + 4;
    lemma_dec_enc_constraints(m.constraints, 0, bytes, p4);
    assert(m.constraints.skip(0) =~= m.constraints);
    assert((m.n_vars as u32) as usize == m.n_vars);
    assert((m.oracle_ids.len() as u32) as nat == m.oracle_ids.len());
    assert((m.constraints.len() as u32) as nat == m.constraints.len());
}

impl ConstraintSet {
    /// Serializes the constraint set.
    #[verifier::loop_isolation(false)]
    pub fn write(&self, out: &mut Vec<u8>)
        requires
            cs_encodable(self@),
        ensures
            final(out)@ == old(out)@ + enc_cs(self@),
    {
        put_u32(out, self.n_vars as u32);
        put_u32(out, self.oracle_ids.len() as u32);
        put_ids(out, &self.oracle_ids);
        put_u32(out, self.constraints.len() as u32);
        let ghost pre = out@;
        let mut i: usize = 0;
        while i < self.constraints.len()
            invariant
                i <= self@.constraints.len(),
                self@.constraints.len() == self.constraints@.len(),
                cs_encodable(self@),
                out@ + enc_constraints(self@.constraints, i as int) == pre + enc_constraints(
                    self@.constraints,
                    0,
                ),
            decreases self@.constraints.len() - i,
        {
            let ghost out_pre = out@;
            proof {
                assert(self@.constraints[i as int] == self.constraints@[i as int]@);
            }
            put_constraint(out, &self.constraints[i]);
            proof {
                assert(out_pre + (enc_constraint(self@.constraints[i as int]) + enc_constraints(
                    self@.constraints,
                    i as int + 1,
                )) =~= (out_pre + enc_constraint(self@.constraints[i as int])) + enc_constraints(
                    self@.constraints,
                    i as int + 1,
                ));
            }
            i = i + 1;
        }
        proof {
            assert(out@ + Seq::<u8>::empty() =~= out@);
            assert((((old(out)@ + enc_u32(self@.n_vars as u32)) + enc_u32(
                self@.oracle_ids.len() as u32,
            )) + enc_ids(self@.oracle_ids, 0)) + enc_u32(self@.constraints.len() as u32)
                + enc_constraints(self@.constraints, 0) =~= old(out)@ + enc_cs(self@));
        }
    }

    /// Deserializes a constraint set, advancing the position.
    #[verifier::loop_isolation(false)]
    pub fn read(bytes: &Vec<u8>, pos: &mut usize) -> (r: Result<ConstraintSet, Error>)
        ensures
            match dec_cs(bytes@, *old(pos) as int) {
                Some((m, p)) => r matches Ok(v) && v@ == m && *final(pos) == p,
                None => r == Err::<ConstraintSet, Error>(Error::InvalidEncoding),
            },
    {
        let nv = match get_u32(bytes, pos) {
            Ok(v) => v,
            Err(e) => {
                return Err(e);
            },
        };
        let idn = match get_u32(bytes, pos) {
            Ok(v) => v,
            Err(e) => {
                return Err(e);
            },
        };
        let oracle_ids = match get_ids(bytes, pos, idn) {
            Ok(v) => v,
            Err(e) => {
                return Err(e);
            },
        };
        let cn = match get_u32(bytes, pos) {
            Ok(v) => v,
            Err(e) => {
                return Err(e);
            },
        };
        let ghost pos_cs = *pos as int;
        let mut constraints: Vec<Constraint> = Vec::new();
        let mut i: u32 = 0;
        while i < cn
            invariant
                i <= cn,
                constraints@.len() == i,
                dec_constraints(bytes@, pos_cs, cn as nat) == (match dec_constraints(
                    bytes@,
                    *pos as int,
                    (cn - i) as nat,
                ) {
                    Some((rest, p)) => Some::<(Seq<ConstraintModel>, int)>(
                        (constraints@.map_values(|c: Constraint| c@) + rest, p),
                    ),
                    None => None::<(Seq<ConstraintModel>, int)>,
                }),
            decreases cn - i,
        {
            let ghost cs_pre = constraints@.map_values(|c: Constraint| c@);
            let ghost pos_pre = *pos as int;
            let c = match get_constraint(bytes, pos) {
                Ok(v) => v,
                Err(e) => {
                    return Err(e);
                },
            };
            constraints.push(c);
            proof {
                let rest_n = (cn - i) as nat;
                assert(dec_constraints(bytes@, pos_pre, rest_n) == (match dec_constraints(
                    bytes@,
                    *pos as int,
                    (rest_n - 1) as nat,
                ) {
                    Some((rest2, p2)) => Some::<(Seq<ConstraintModel>, int)>(
                        (seq![c@] + rest2, p2),
                    ),
                    None => None::<(Seq<ConstraintModel>, int)>,
                }));
                assert(constraints@.map_values(|c: Constraint| c@) =~= cs_pre.push(c@));
                match dec_constraints(bytes@, *pos as int, (rest_n - 1) as nat) {
                    Some((rest2, p2)) => {
                        assert(cs_pre + (seq![c@] + rest2) =~= constraints@.map_values(
                            |c: Constraint| c@,
                        ) + rest2);
                    },
                    None => {},
                }
            }
            i = i + 1;
        }
        proof {
            assert(constraints@.map_values(|c: Constraint| c@) + Seq::<ConstraintModel>::empty()
                =~= constraints@.map_values(|c: Constraint| c@));
        }
        Ok(ConstraintSet { n_vars: nv as usize, oracle_ids, constraints })
    }
}


/// Stability of the variable count under truncation: a prefix that
/// still holds the oracle and everything below it gives the same count.
pub proof fn lemma_n_vars_take_stable(s: Seq<OracleModel>, i: int, id: int)
    requires
        0 <= id < i <= s.len(),
    ensures
        model_n_vars(s.take(i), id) == model_n_vars(s, id),
    decreases id,
{
    match s[id] {
        OracleModel::Repeating { inner, .. } => {
            if inner < id {
                lemma_n_vars_take_stable(s, i, inner as int);
            }
        },
        OracleModel::Projected { inner, .. } => {
            if inner < id {
                lemma_n_vars_take_stable(s, i, inner as int);
            }
        },
        OracleModel::Shifted { inner, .. } => {
            if inner < id {
                lemma_n_vars_take_stable(s, i, inner as int);
            }
        },
        OracleModel::Packed { inner, .. } => {
            if inner < id {
                lemma_n_vars_take_stable(s, i, inner as int);
            }
        },
        _ => {},
    }
}

/// Stability of the tower level under truncation.
pub proof fn lemma_tower_take_stable(s: Seq<OracleModel>, i: int, id: int)
    requires
        0 <= id < i <= s.len(),
    ensures
        model_tower_level(s.take(i), id) == model_tower_level(s, id),
    decreases id, 1int, 0int,
{
    match s[id] {
        OracleModel::Repeating { inner, .. } => {
            if inner < id {
                lemma_tower_take_stable(s, i, inner as int);
            }
        },
        OracleModel::Projected { inner, .. } => {
            if inner < id {
                lemma_tower_take_stable(s, i, inner as int);
            }
        },
        OracleModel::Shifted { inner, .. } => {
            if inner < id {
                lemma_tower_take_stable(s, i, inner as int);
            }
        },
        OracleModel::Packed { inner, .. } => {
            if inner < id {
                lemma_tower_take_stable(s, i, inner as int);
            }
        },
        OracleModel::LinearCombination { terms, .. } => {
            lemma_lc_take_stable(s, i, terms, 0, id);
        },
        OracleModel::ZeroPadded { inner, .. } => {
            if inner < id {
                lemma_tower_take_stable(s, i, inner as int);
            }
        },
        _ => {},
    }
}

/// The truncation stability of the maximum level over terms.
pub proof fn lemma_lc_take_stable(
    s: Seq<OracleModel>,
    i: int,
    terms: Seq<(usize, u128)>,
    j: int,
    id: int,
)
    requires
        0 <= id < i <= s.len(),
    ensures
        lc_max_level(s.take(i), terms, j, id) == lc_max_level(s, terms, j, id),
    decreases id, 0int, terms.len() - j,
{
    if 0 <= j < terms.len() {
        let inner = terms[j].0 as int;
        if 0 <= inner < id {
            lemma_tower_take_stable(s, i, inner);
        }
        lemma_lc_take_stable(s, i, terms, j + 1, id);
    }
}

/// Whether a transparent polynomial fits its encoding.
pub open spec fn tp_encodable(m: TransparentModel) -> bool {
    match m {
        TransparentModel::Constant { n_vars, tower_level, .. } => n_vars <= u32::MAX && tower_level
            <= u32::MAX,
        TransparentModel::StepDown { n_vars, index } => n_vars <= u32::MAX && index <= u32::MAX,
        TransparentModel::EqInd { n_vars, point } => n_vars <= u32::MAX && point.len() == n_vars,
    }
}

/// The byte encoding of a transparent polynomial.
pub open spec fn enc_tp(m: TransparentModel) -> Seq<u8> {
    match m {
        TransparentModel::Constant { n_vars, value, tower_level } => enc_u32(1) + enc_u32(
            n_vars as u32,
        ) + enc_u128(value) + enc_u32(tower_level as u32),
        TransparentModel::StepDown { n_vars, index } => enc_u32(2) + enc_u32(n_vars as u32)
            + enc_u32(index as u32),
        TransparentModel::EqInd { n_vars, point } => enc_u32(3) + enc_u32(n_vars as u32) + enc_vals(
            point,
            0,
        ),
    }
}

/// Reads a transparent polynomial at `pos`; the description must be
/// well-formed and stay within the field's tower height.
pub open spec fn dec_tp(bytes: Seq<u8>, pos: int) -> Option<(TransparentModel, int)> {
    match dec_u32(bytes, pos) {
        None => None,
        Some((tag, p1)) => if tag == 1 {
            match dec_u32(bytes, p1) {
                None => None,
                Some((nv, p2)) => match dec_u128(bytes, p2) {
                    None => None,
                    Some((v, p3)) => match dec_u32(bytes, p3) {
                        None => None,
                        Some((tl, p4)) => if tl <= 7 {
                            Some(
                                (
                                    TransparentModel::Constant {
                                        n_vars: nv as usize,
                                        value: v,
                                        tower_level: tl as usize,
                                    },
                                    p4,
                                ),
                            )
                        } else {
                            None
                        },
                    },
                },
            }
        } else if tag == 2 {
            match dec_u32(bytes, p1) {
                None => None,
                Some((nv, p2)) => match dec_u32(bytes, p2) {
                    None => None,
                    Some((idx, p3)) => if idx as nat <= vstd::arithmetic::power2::pow2(
                        nv as nat,
                    ) {
                        Some(
                            (
                                TransparentModel::StepDown {
                                    n_vars: nv as usize,
                                    index: idx as usize,
                                },
                                p3,
                            ),
                        )
                    } else {
                        None
                    },
                },
            }
        } else if tag == 3 {
            match dec_u32(bytes, p1) {
                None => None,
                Some((nv, p2)) => match dec_vals(bytes, p2, nv as nat) {
                    None => None,
                    Some((point, p3)) => Some(
                        (TransparentModel::EqInd { n_vars: nv as usize, point }, p3),
                    ),
                },
            }
        } else {
            None
        },
    }
}

/// Decoding inverts encoding for transparent polynomials that are
/// well-formed and within the tower height.
pub proof fn lemma_dec_enc_tp(m: TransparentModel, bytes: Seq<u8>, pos: int)
    requires
        tp_encodable(m),
        m.wf(),
        m.tower_level() <= 7,
        0 <= pos,
        pos + enc_tp(m).len() <= bytes.len(),
        bytes.subrange(pos, pos + enc_tp(m).len()) == enc_tp(m),
    ensures
        dec_tp(bytes, pos) == Some((m, pos + enc_tp(m).len())),
{
    lemma_enc_widths();
    match m {
        TransparentModel::Constant { n_vars, value, tower_level } => {
            let a1 = enc_u32(1);
            let a2 = enc_u32(n_vars as u32);
            let a3 = enc_u128(value);
            let a4 = enc_u32(tower_level as u32);
            assert(enc_tp(m) =~= a1 + (a2 + a3 + a4));
            lemma_split_prefix(bytes, pos, a1, a2 + a3 + a4);
            lemma_dec_enc_u32(1, bytes, pos);
            assert(a2 + a3 + a4 =~= a2 + (a3 + a4));
            lemma_split_prefix(bytes, pos + 4, a2, a3 + a4);
            lemma_dec_enc_u32(n_vars as u32, bytes, pos + 4);
            lemma_split_prefix(bytes, pos + 8, a3, a4);
            lemma_dec_enc_u128(value, bytes, pos + 8);
            lemma_dec_enc_u32(tower_level as u32, bytes, pos + 24);
        },
        TransparentModel::StepDown { n_vars, index } => {
            let a1 = enc_u32(2);
            let a2 = enc_u32(n_vars as u32);
            let a3 = enc_u32(index as u32);
            assert(enc_tp(m) =~= a1 + (a2 + a3));
            lemma_split_prefix(bytes, pos, a1, a2 + a3);
            lemma_dec_enc_u32(2, bytes, pos);
            lemma_split_prefix(bytes, pos + 4, a2, a3);
            lemma_dec_enc_u32(n_vars as u32, bytes, pos + 4);
            lemma_dec_enc_u32(index as u32, bytes, pos + 8);
        },
        TransparentModel::EqInd { n_vars, point } => {
            let a1 = enc_u32(3);
            let a2 = enc_u32(n_vars as u32);
            let a3 = enc_vals(point, 0);
            lemma_enc_vals_len(point, 0);
            assert(enc_tp(m) =~= a1 + (a2 + a3));
            lemma_split_prefix(bytes, pos, a1, a2 + a3);
            lemma_dec_enc_u32(3, bytes, pos);
            lemma_split_prefix(bytes, pos + 4, a2, a3);
            lemma_dec_enc_u32(n_vars as u32, bytes, pos + 4);
            lemma_dec_enc_vals(point, 0, bytes, pos + 8);
            assert(point.skip(0) =~= point);
        },
    }
}

/// The projection-variant tag.
pub open spec fn proj_tag(v: ProjectionVariant) -> u32 {
    match v {
        ProjectionVariant::FirstVars => 1u32,
        ProjectionVariant::LastVars => 2u32,
    }
}

/// The shift-variant tag.
pub open spec fn shift_tag(v: ShiftVariant) -> u32 {
    match v {
        ShiftVariant::CircularLeft => 1u32,
        ShiftVariant::LogicalLeft => 2u32,
        ShiftVariant::LogicalRight => 3u32,
    }
}

/// The encoding of a linear combination's terms from position `i` on.
pub open spec fn enc_terms(ts: Seq<(usize, u128)>, i: int) -> Seq<u8>
    decreases ts.len() - i,
{
    if i < 0 || i >= ts.len() {
        Seq::<u8>::empty()
    } else {
        enc_u32(ts[i].0 as u32) + enc_u128(ts[i].1) + enc_terms(ts, i + 1)
    }
}

/// Whether a term list fits its encoding.
pub open spec fn terms_encodable(ts: Seq<(usize, u128)>) -> bool {
    ts.len() <= u32::MAX && forall|j: int| 0 <= j < ts.len() ==> (#[trigger] ts[j]).0 <= u32::MAX
}

/// The width of an encoded term list.
pub proof fn lemma_enc_terms_len(ts: Seq<(usize, u128)>, i: int)
    requires
        0 <= i <= ts.len(),
    ensures
        enc_terms(ts, i).len() == 20 * (ts.len() - i),
    decreases ts.len() - i,
{
    lemma_enc_widths();
    if i < ts.len() {
        lemma_enc_terms_len(ts, i + 1);
    }
}

/// Reads `n` linear-combination terms.
pub open spec fn dec_terms(bytes: Seq<u8>, pos: int, n: nat) -> Option<(Seq<(usize, u128)>, int)>
    decreases n,
{
    if n == 0 {
        Some((Seq::<(usize, u128)>::empty(), pos))
    } else {
        match dec_u32(bytes, pos) {
            None => None,
            Some((id, p1)) => match dec_u128(bytes, p1) {
                None => None,
                Some((c, p2)) => match dec_terms(bytes, p2, (n - 1) as nat) {
                    None => None,
                    Some((rest, p3)) => Some((seq![(id as usize, c)] + rest, p3)),
                },
            },
        }
    }
}

/// Decoding inverts encoding for term lists.
pub proof fn lemma_dec_enc_terms(ts: Seq<(usize, u128)>, i: int, bytes: Seq<u8>, pos: int)
    requires
        0 <= i <= ts.len(),
        terms_encodable(ts),
        0 <= pos,
        pos + enc_terms(ts, i).len() <= bytes.len(),
        bytes.subrange(pos, pos + enc_terms(ts, i).len()) == enc_terms(ts, i),
    ensures
        dec_terms(bytes, pos, (ts.len() - i) as nat) == Some(
            (ts.skip(i), pos + enc_terms(ts, i).len()),
        ),
    decreases ts.len() - i,
{
    lemma_enc_widths();
    lemma_enc_terms_len(ts, i);
    if i == ts.len() {
        assert(ts.skip(i) =~= Seq::<(usize, u128)>::empty());
    } else {
        let a = enc_u32(ts[i].0 as u32);
        let b = enc_u128(ts[i].1);
        let c = enc_terms(ts, i + 1);
        lemma_enc_terms_len(ts, i + 1);
        assert(enc_terms(ts, i) =~= a + (b + c));
        lemma_split_prefix(bytes, pos, a, b + c);
        lemma_dec_enc_u32(ts[i].0 as u32, bytes, pos);
        lemma_split_prefix(bytes, pos + 4, b, c);
        lemma_dec_enc_u128(ts[i].1, bytes, pos + 4);
        lemma_dec_enc_terms(ts, i + 1, bytes, pos + 20);
        assert((ts[i].0 as u32) as usize == ts[i].0);
        assert(ts.skip(i) =~= seq![ts[i]] + ts.skip(i + 1));
        assert(seq![(ts[i].0, ts[i].1)] =~= seq![ts[i]]);
    }
}

/// Whether an oracle descriptor fits its encoding.
pub open spec fn oracle_encodable(m: OracleModel) -> bool {
    match m {
        OracleModel::Transparent { poly } => tp_encodable(poly),
        OracleModel::Committed { n_vars, tower_level } => n_vars <= u32::MAX && tower_level
            <= u32::MAX,
        OracleModel::Repeating { inner, log_count } => inner <= u32::MAX && log_count <= u32::MAX,
        OracleModel::Projected { inner, values, .. } => inner <= u32::MAX && values.len()
            <= u32::MAX,
        OracleModel::Shifted { inner, shift_offset, block_size, .. } => inner <= u32::MAX
            && shift_offset <= u32::MAX && block_size <= u32::MAX,
        OracleModel::Packed { inner, log_degree } => inner <= u32::MAX && log_degree <= u32::MAX,
        OracleModel::LinearCombination { n_vars, terms, .. } => n_vars <= u32::MAX
            && terms_encodable(terms),
        OracleModel::ZeroPadded { inner, n_vars } => inner <= u32::MAX && n_vars <= u32::MAX,
    }
}

/// The byte encoding of one oracle descriptor.
pub open spec fn enc_oracle(m: OracleModel) -> Seq<u8> {
    match m {
        OracleModel::Transparent { poly } => enc_u32(1) + enc_tp(poly),
        OracleModel::Committed { n_vars, tower_level } => enc_u32(2) + enc_u32(n_vars as u32)
            + enc_u32(tower_level as u32),
        OracleModel::Repeating { inner, log_count } => enc_u32(3) + enc_u32(inner as u32) + enc_u32(
            log_count as u32,
        ),
        OracleModel::Projected { inner, values, variant } => enc_u32(4) + enc_u32(inner as u32)
            + enc_u32(values.len() as u32) + enc_vals(values, 0) + enc_u32(proj_tag(variant)),
        OracleModel::Shifted { inner, shift_offset, block_size, variant } => enc_u32(5) + enc_u32(
            inner as u32,
        ) + enc_u32(shift_offset as u32) + enc_u32(block_size as u32) + enc_u32(shift_tag(variant)),
        OracleModel::Packed { inner, log_degree } => enc_u32(6) + enc_u32(inner as u32) + enc_u32(
            log_degree as u32,
        ),
        OracleModel::LinearCombination { n_vars, offset, terms } => enc_u32(7) + enc_u32(
            n_vars as u32,
        ) + enc_u128(offset) + enc_u32(terms.len() as u32) + enc_terms(terms, 0),
        OracleModel::ZeroPadded { inner, n_vars } => enc_u32(8) + enc_u32(inner as u32) + enc_u32(
            n_vars as u32,
        ),
    }
}

/// Reads one oracle descriptor at `pos` against the graph decoded so
/// far; the descriptor must be valid at the graph's end.
pub open spec fn dec_oracle(bytes: Seq<u8>, pos: int, s: Seq<OracleModel>) -> Option<
    (OracleModel, int),
> {
    match dec_u32(bytes, pos) {
        None => None,
        Some((tag, p1)) => if tag == 1 {
            match dec_tp(bytes, p1) {
                None => None,
                Some((poly, p2)) => Some((OracleModel::Transparent { poly }, p2)),
            }
        } else if tag == 2 {
            match dec_u32(bytes, p1) {
                None => None,
                Some((nv, p2)) => match dec_u32(bytes, p2) {
                    None => None,
                    Some((tl, p3)) => Some(
                        (
                            OracleModel::Committed {
                                n_vars: nv as usize,
                                tower_level: tl as usize,
                            },
                            p3,
                        ),
                    ),
                },
            }
        } else if tag == 3 {
            match dec_u32(bytes, p1) {
                None => None,
                Some((inner, p2)) => match dec_u32(bytes, p2) {
                    None => None,
                    Some((lc, p3)) => if (inner as usize) < s.len() && model_n_vars(
                        s,
                        inner as int,
                    ) + (lc as usize) <= usize::MAX {
                        Some(
                            (
                                OracleModel::Repeating {
                                    inner: inner as usize,
                                    log_count: lc as usize,
                                },
                                p3,
                            ),
                        )
                    } else {
                        None
                    },
                },
            }
        } else if tag == 4 {
            match dec_u32(bytes, p1) {
                None => None,
                Some((inner, p2)) => match dec_u32(bytes, p2) {
                    None => None,
                    Some((n, p3)) => match dec_vals(bytes, p3, n as nat) {
                        None => None,
                        Some((values, p4)) => match dec_u32(bytes, p4) {
                            None => None,
                            Some((vt, p5)) => if (vt == 1 || vt == 2) && (inner as usize)
                                < s.len() && values.len() <= model_n_vars(s, inner as int) {
                                Some(
                                    (
                                        OracleModel::Projected {
                                            inner: inner as usize,
                                            values,
                                            variant: if vt == 1 {
                                                ProjectionVariant::FirstVars
                                            } else {
                                                ProjectionVariant::LastVars
                                            },
                                        },
                                        p5,
                                    ),
                                )
                            } else {
                                None
                            },
                        },
                    },
                },
            }
        } else if tag == 5 {
            match dec_u32(bytes, p1) {
                None => None,
                Some((inner, p2)) => match dec_u32(bytes, p2) {
                    None => None,
                    Some((off, p3)) => match dec_u32(bytes, p3) {
                        None => None,
                        Some((bb, p4)) => match dec_u32(bytes, p4) {
                            None => None,
                            Some((vt, p5)) => if (vt == 1 || vt == 2 || vt == 3) && (inner
                                as usize) < s.len() && bb as usize <= model_n_vars(
                                s,
                                inner as int,
                            ) && 1 <= off && (off as nat) < vstd::arithmetic::power2::pow2(
                                bb as nat,
                            ) {
                                Some(
                                    (
                                        OracleModel::Shifted {
                                            inner: inner as usize,
                                            shift_offset: off as usize,
                                            block_size: bb as usize,
                                            variant: if vt == 1 {
                                                ShiftVariant::CircularLeft
                                            } else if vt == 2 {
                                                ShiftVariant::LogicalLeft
                                            } else {
                                                ShiftVariant::LogicalRight
                                            },
                                        },
                                        p5,
                                    ),
                                )
                            } else {
                                None
                            },
                        },
                    },
                },
            }
        } else if tag == 6 {
            match dec_u32(bytes, p1) {
                None => None,
                Some((inner, p2)) => match dec_u32(bytes, p2) {
                    None => None,
                    Some((ld, p3)) => if (inner as usize) < s.len() && ld as usize <= model_n_vars(
                        s,
                        inner as int,
                    ) && model_tower_level(s, inner as int) + (ld as usize) <= usize::MAX {
                        Some(
                            (
                                OracleModel::Packed {
                                    inner: inner as usize,
                                    log_degree: ld as usize,
                                },
                                p3,
                            ),
                        )
                    } else {
                        None
                    },
                },
            }
        } else if tag == 7 {
            match dec_u32(bytes, p1) {
                None => None,
                Some((nv, p2)) => match dec_u128(bytes, p2) {
                    None => None,
                    Some((off, p3)) => match dec_u32(bytes, p3) {
                        None => None,
                        Some((n, p4)) => match dec_terms(bytes, p4, n as nat) {
                            None => None,
                            Some((terms, p5)) => if crate::oracle::spec_lc_check(
                                s,
                                terms,
                                nv as usize,
                                0,
                            ) is Ok {
                                Some(
                                    (
                                        OracleModel::LinearCombination {
                                            n_vars: nv as usize,
                                            offset: off,
                                            terms,
                                        },
                                        p5,
                                    ),
                                )
                            } else {
                                None
                            },
                        },
                    },
                },
            }
        } else if tag == 8 {
            match dec_u32(bytes, p1) {
                None => None,
                Some((inner, p2)) => match dec_u32(bytes, p2) {
                    None => None,
                    Some((nv, p3)) => if (inner as usize) < s.len() && model_n_vars(
                        s,
                        inner as int,
                    ) <= nv as usize {
                        Some(
                            (
                                OracleModel::ZeroPadded { inner: inner as usize, n_vars: nv as usize },
                                p3,
                            ),
                        )
                    } else {
                        None
                    },
                },
            }
        } else {
            None
        },
    }
}

/// Reads `n` descriptors, growing the graph decoded so far.
pub open spec fn dec_oracles(bytes: Seq<u8>, pos: int, n: nat, s: Seq<OracleModel>) -> Option<
    (Seq<OracleModel>, int),
>
    decreases n,
{
    if n == 0 {
        Some((s, pos))
    } else {
        match dec_oracle(bytes, pos, s) {
            None => None,
            Some((m, p)) => dec_oracles(bytes, p, (n - 1) as nat, s.push(m)),
        }
    }
}

/// Reads a whole oracle graph at `pos`.
pub open spec fn dec_graph(bytes: Seq<u8>, pos: int) -> Option<(Seq<OracleModel>, int)> {
    match dec_u32(bytes, pos) {
        None => None,
        Some((n, p1)) => dec_oracles(bytes, p1, n as nat, Seq::<OracleModel>::empty()),
    }
}

/// The encoding of the descriptors of a graph from position `i` on.
pub open spec fn enc_oracles(s: Seq<OracleModel>, i: int) -> Seq<u8>
    decreases s.len() - i,
{
    if i < 0 || i >= s.len() {
        Seq::<u8>::empty()
    } else {
        enc_oracle(s[i]) + enc_oracles(s, i + 1)
    }
}

/// Whether a graph fits its encoding.
pub open spec fn graph_encodable(s: Seq<OracleModel>) -> bool {
    s.len() <= u32::MAX && forall|i: int| 0 <= i < s.len() ==> oracle_encodable(#[trigger] s[i])
}

/// The byte encoding of a whole oracle graph.
pub open spec fn enc_graph(s: Seq<OracleModel>) -> Seq<u8> {
    enc_u32(s.len() as u32) + enc_oracles(s, 0)
}


/// The term check succeeds exactly when every term is registered with
/// the declared arity.
pub proof fn lemma_lc_check_iff(s: Seq<OracleModel>, terms: Seq<(usize, u128)>, nv: usize, i: int)
    requires
        0 <= i <= terms.len(),
    ensures
        crate::oracle::spec_lc_check(s, terms, nv, i) is Ok <==> (forall|j: int|
            i <= j < terms.len() ==> (#[trigger] terms[j]).0 < s.len() && model_n_vars(
                s,
                terms[j].0 as int,
            ) == nv),
    decreases terms.len() - i,
{
    if i < terms.len() {
        lemma_lc_check_iff(s, terms, nv, i + 1);
    }
}

/// A valid descriptor stays valid when the graph is truncated just
/// after it.
pub proof fn lemma_oracle_ok_take(s: Seq<OracleModel>, i: int)
    requires
        0 <= i < s.len(),
        crate::oracle::oracle_ok(s, i),
    ensures
        crate::oracle::oracle_ok(s.take(i + 1), i),
{
    match s[i] {
        OracleModel::Repeating { inner, .. } => {
            lemma_n_vars_take_stable(s, i + 1, inner as int);
        },
        OracleModel::Projected { inner, .. } => {
            lemma_n_vars_take_stable(s, i + 1, inner as int);
        },
        OracleModel::Shifted { inner, .. } => {
            lemma_n_vars_take_stable(s, i + 1, inner as int);
        },
        OracleModel::Packed { inner, .. } => {
            lemma_n_vars_take_stable(s, i + 1, inner as int);
            lemma_tower_take_stable(s, i + 1, inner as int);
        },
        OracleModel::LinearCombination { n_vars, terms, .. } => {
            assert forall|j: int|
                0 <= j < terms.len() implies (#[trigger] terms[j]).0 < i && model_n_vars(
                s.take(i + 1),
                terms[j].0 as int,
            ) == n_vars by {
                lemma_n_vars_take_stable(s, i + 1, terms[j].0 as int);
            }
        },
        OracleModel::ZeroPadded { inner, .. } => {
            lemma_n_vars_take_stable(s, i + 1, inner as int);
        },
        _ => {},
    }
}

/// Decoding inverts encoding for one descriptor appended to a decoded
/// prefix.
#[verifier::rlimit(100)]
#[verifier::spinoff_prover]
pub proof fn lemma_dec_enc_oracle(m: OracleModel, s: Seq<OracleModel>, bytes: Seq<u8>, pos: int)
    requires
        oracle_encodable(m),
        crate::oracle::oracle_ok(s.push(m), s.len() as int),
        0 <= pos,
        pos + enc_oracle(m).len() <= bytes.len(),
        bytes.subrange(pos, pos + enc_oracle(m).len()) == enc_oracle(m),
    ensures
        dec_oracle(bytes, pos, s) == Some((m, pos + enc_oracle(m).len())),
{
    lemma_enc_widths();
    let s2 = s.push(m);
    let last = s.len() as int;
    match m {
        OracleModel::Transparent { poly } => {
            lemma_split_prefix(bytes, pos, enc_u32(1), enc_tp(poly));
            lemma_dec_enc_u32(1, bytes, pos);
            lemma_dec_enc_tp(poly, bytes, pos + 4);
        },
        OracleModel::Committed { n_vars, tower_level } => {
            let a1 = enc_u32(2);
            let a2 = enc_u32(n_vars as u32);
            let a3 = enc_u32(tower_level as u32);
            assert(enc_oracle(m) =~= a1 + (a2 + a3));
            lemma_split_prefix(bytes, pos, a1, a2 + a3);
            lemma_dec_enc_u32(2, bytes, pos);
            lemma_split_prefix(bytes, pos + 4, a2, a3);
            lemma_dec_enc_u32(n_vars as u32, bytes, pos + 4);
            lemma_dec_enc_u32(tower_level as u32, bytes, pos + 8);
        },
        OracleModel::Repeating { inner, log_count } => {
            let a1 = enc_u32(3);
            let a2 = enc_u32(inner as u32);
            let a3 = enc_u32(log_count as u32);
            assert(enc_oracle(m) =~= a1 + (a2 + a3));
            lemma_split_prefix(bytes, pos, a1, a2 + a3);
            lemma_dec_enc_u32(3, bytes, pos);
            lemma_split_prefix(bytes, pos + 4, a2, a3);
            lemma_dec_enc_u32(inner as u32, bytes, pos + 4);
            lemma_dec_enc_u32(log_count as u32, bytes, pos + 8);
            crate::oracle::lemma_n_vars_push_stable(s, m, inner as int);
        },
        OracleModel::Projected { inner, values, variant } => {
            let a1 = enc_u32(4);
            let a2 = enc_u32(inner as u32);
            let a3 = enc_u32(values.len() as u32);
            let a4 = enc_vals(values, 0);
            let a5 = enc_u32(proj_tag(variant));
            lemma_enc_vals_len(values, 0);
            assert(enc_oracle(m) =~= a1 + (a2 + a3 + a4 + a5));
            lemma_split_prefix(bytes, pos, a1, a2 + a3 + a4 + a5);
            lemma_dec_enc_u32(4, bytes, pos);
            assert(a2 + a3 + a4 + a5 =~= a2 + (a3 + a4 + a5));
            lemma_split_prefix(bytes, pos + 4, a2, a3 + a4 + a5);
            lemma_dec_enc_u32(inner as u32, bytes, pos + 4);
            assert(a3 + a4 + a5 =~= a3 + (a4 + a5));
            lemma_split_prefix(bytes, pos + 8, a3, a4 + a5);
            lemma_dec_enc_u32(values.len() as u32, bytes, pos + 8);
            lemma_split_prefix(bytes, pos + 12, a4, a5);
            lemma_dec_enc_vals(values, 0, bytes, pos + 12);
            assert(values.skip(0) =~= values);
            lemma_dec_enc_u32(proj_tag(variant), bytes, pos + 12 + a4.len());
            crate::oracle::lemma_n_vars_push_stable(s, m, inner as int);
        },
        OracleModel::Shifted { inner, shift_offset, block_size, variant } => {
            let a1 = enc_u32(5);
            let a2 = enc_u32(inner as u32);
            let a3 = enc_u32(shift_offset as u32);
            let a4 = enc_u32(block_size as u32);
            let a5 = enc_u32(shift_tag(variant));
            assert(enc_oracle(m) =~= a1 + (a2 + a3 + a4 + a5));
            lemma_split_prefix(bytes, pos, a1, a2 + a3 + a4 + a5);
            lemma_dec_enc_u32(5, bytes, pos);
            assert(a2 + a3 + a4 + a5 =~= a2 + (a3 + a4 + a5));
            lemma_split_prefix(bytes, pos + 4, a2, a3 + a4 + a5);
            lemma_dec_enc_u32(inner as u32, bytes, pos + 4);
            assert(a3 + a4 + a5 =~= a3 + (a4 + a5));
            lemma_split_prefix(bytes, pos + 8, a3, a4 + a5);
            lemma_dec_enc_u32(shift_offset as u32, bytes, pos + 8);
            lemma_split_prefix(bytes, pos + 12, a4, a5);
            lemma_dec_enc_u32(block_size as u32, bytes, pos + 12);
            lemma_dec_enc_u32(shift_tag(variant), bytes, pos + 16);
            crate::oracle::lemma_n_vars_push_stable(s, m, inner as int);
        },
        OracleModel::Packed { inner, log_degree } => {
            let a1 = enc_u32(6);
            let a2 = enc_u32(inner as u32);
            let a3 = enc_u32(log_degree as u32);
            assert(enc_oracle(m) =~= a1 + (a2 + a3));
            lemma_split_prefix(bytes, pos, a1, a2 + a3);
            lemma_dec_enc_u32(6, bytes, pos);
            lemma_split_prefix(bytes, pos + 4, a2, a3);
            lemma_dec_enc_u32(inner as u32, bytes, pos + 4);
            lemma_dec_enc_u32(log_degree as u32, bytes, pos + 8);
            crate::oracle::lemma_n_vars_push_stable(s, m, inner as int);
            crate::oracle::lemma_tower_level_push_stable(s, m, inner as int);
        },
        OracleModel::LinearCombination { n_vars, offset, terms } => {
            let a1 = enc_u32(7);
            let a2 = enc_u32(n_vars as u32);
            let a3 = enc_u128(offset);
            let a4 = enc_u32(terms.len() as u32);
            let a5 = enc_terms(terms, 0);
            lemma_enc_terms_len(terms, 0);
            assert(enc_oracle(m) =~= a1 + (a2 + a3 + a4 + a5));
            lemma_split_prefix(bytes, pos, a1, a2 + a3 + a4 + a5);
            lemma_dec_enc_u32(7, bytes, pos);
            assert(a2 + a3 + a4 + a5 =~= a2 + (a3 + a4 + a5));
            lemma_split_prefix(bytes, pos + 4, a2, a3 + a4 + a5);
            lemma_dec_enc_u32(n_vars as u32, bytes, pos + 4);
            assert(a3 + a4 + a5 =~= a3 + (a4 + a5));
            lemma_split_prefix(bytes, pos + 8, a3, a4 + a5);
            lemma_dec_enc_u128(offset, bytes, pos + 8);
            lemma_split_prefix(bytes, pos + 24, a4, a5);
            lemma_dec_enc_u32(terms.len() as u32, bytes, pos + 24);
            lemma_dec_enc_terms(terms, 0, bytes, pos + 28);
            assert(terms.skip(0) =~= terms);
            lemma_lc_check_iff(s, terms, n_vars, 0);
            assert forall|j: int|
                0 <= j < terms.len() implies (#[trigger] terms[j]).0 < s.len() && model_n_vars(
                s,
                terms[j].0 as int,
            ) == n_vars by {
                crate::oracle::lemma_n_vars_push_stable(s, m, terms[j].0 as int);
            }
        },
        OracleModel::ZeroPadded { inner, n_vars } => {
            let a1 = enc_u32(8);
            let a2 = enc_u32(inner as u32);
            let a3 = enc_u32(n_vars as u32);
            assert(enc_oracle(m) =~= a1 + (a2 + a3));
            lemma_split_prefix(bytes, pos, a1, a2 + a3);
            lemma_dec_enc_u32(8, bytes, pos);
            lemma_split_prefix(bytes, pos + 4, a2, a3);
            lemma_dec_enc_u32(inner as u32, bytes, pos + 4);
            lemma_dec_enc_u32(n_vars as u32, bytes, pos + 8);
            crate::oracle::lemma_n_vars_push_stable(s, m, inner as int);
        },
    }
}

/// Decoding inverts encoding for the descriptor list of a well-formed
/// graph.
pub proof fn lemma_dec_enc_oracles(s: Seq<OracleModel>, i: int, bytes: Seq<u8>, pos: int)
    requires
        0 <= i <= s.len(),
        crate::oracle::graph_wf(s),
        graph_encodable(s),
        0 <= pos,
        pos + enc_oracles(s, i).len() <= bytes.len(),
        bytes.subrange(pos, pos + enc_oracles(s, i).len()) == enc_oracles(s, i),
    ensures
        dec_oracles(bytes, pos, (s.len() - i) as nat, s.take(i)) == Some(
            (s, pos + enc_oracles(s, i).len()),
        ),
    decreases s.len() - i,
{
    if i == s.len() {
        assert(s.take(i) =~= s);
    } else {
        let a = enc_oracle(s[i]);
        let b = enc_oracles(s, i + 1);
        lemma_split_prefix(bytes, pos, a, b);
        assert(crate::oracle::oracle_ok(s, i));
        lemma_oracle_ok_take(s, i);
        assert(s.take(i).push(s[i]) =~= s.take(i + 1));
        lemma_dec_enc_oracle(s[i], s.take(i), bytes, pos);
        lemma_dec_enc_oracles(s, i + 1, bytes, pos + a.len());
    }
}

/// Decoding inverts encoding for whole graphs.
pub proof fn lemma_dec_enc_graph(s: Seq<OracleModel>, bytes: Seq<u8>, pos: int)
    requires
        crate::oracle::graph_wf(s),
        graph_encodable(s),
        0 <= pos,
        pos + enc_graph(s).len() <= bytes.len(),
        bytes.subrange(pos, pos + enc_graph(s).len()) == enc_graph(s),
    ensures
        dec_graph(bytes, pos) == Some((s, pos + enc_graph(s).len())),
{
    lemma_enc_widths();
    lemma_split_prefix(bytes, pos, enc_u32(s.len() as u32), enc_oracles(s, 0));
    lemma_dec_enc_u32(s.len() as u32, bytes, pos);
    assert(s.take(0) =~= Seq::<OracleModel>::empty());
    lemma_dec_enc_oracles(s, 0, bytes, pos + 4);
    assert((s.len() as u32) as nat == s.len());
}


/// Serializes one transparent polynomial.
fn put_tp(out: &mut Vec<u8>, poly: &TransparentPoly)
    requires
        tp_encodable(poly@),
    ensures
        final(out)@ == old(out)@ + enc_tp(poly@),
{
    match poly {
        TransparentPoly::Constant(c) => {
            put_u32(out, 1);
            put_u32(out, c.n_vars as u32);
            put_u128(out, c.value);
            put_u32(out, c.tower_level as u32);
            proof {
                assert((((old(out)@ + enc_u32(1)) + enc_u32(poly@.n_vars() as u32)) + enc_u128(
                    c.value,
                )) + enc_u32(c.tower_level as u32) =~= old(out)@ + enc_tp(poly@));
            }
        },
        TransparentPoly::StepDown { n_vars, index } => {
            put_u32(out, 2);
            put_u32(out, *n_vars as u32);
            put_u32(out, *index as u32);
            proof {
                assert(((old(out)@ + enc_u32(2)) + enc_u32(*n_vars as u32)) + enc_u32(
                    *index as u32,
                ) =~= old(out)@ + enc_tp(poly@));
            }
        },
        TransparentPoly::EqInd { n_vars, point } => {
            put_u32(out, 3);
            put_u32(out, *n_vars as u32);
            put_vals(out, point);
            proof {
                assert(((old(out)@ + enc_u32(3)) + enc_u32(*n_vars as u32)) + enc_vals(point@, 0)
                    =~= old(out)@ + enc_tp(poly@));
            }
        },
    }
}

/// Serializes one oracle descriptor.
fn put_oracle(out: &mut Vec<u8>, m: &MultilinearPolyOracle)
    requires
        oracle_encodable(m@),
    ensures
        final(out)@ == old(out)@ + enc_oracle(m@),
{
    match m {
        MultilinearPolyOracle::Transparent { poly } => {
            put_u32(out, 1);
            put_tp(out, poly);
            proof {
                assert((old(out)@ + enc_u32(1)) + enc_tp(poly@) =~= old(out)@ + enc_oracle(m@));
            }
        },
        MultilinearPolyOracle::Committed { n_vars, tower_level } => {
            put_u32(out, 2);
            put_u32(out, *n_vars as u32);
            put_u32(out, *tower_level as u32);
            proof {
                assert(((old(out)@ + enc_u32(2)) + enc_u32(*n_vars as u32)) + enc_u32(
                    *tower_level as u32,
                ) =~= old(out)@ + enc_oracle(m@));
            }
        },
        MultilinearPolyOracle::Repeating { inner, log_count } => {
            put_u32(out, 3);
            put_u32(out, *inner as u32);
            put_u32(out, *log_count as u32);
            proof {
                assert(((old(out)@ + enc_u32(3)) + enc_u32(*inner as u32)) + enc_u32(
                    *log_count as u32,
                ) =~= old(out)@ + enc_oracle(m@));
            }
        },
        MultilinearPolyOracle::Projected { inner, values, variant } => {
            put_u32(out, 4);
            put_u32(out, *inner as u32);
            put_u32(out, values.len() as u32);
            put_vals(out, values);
            match variant {
                ProjectionVariant::FirstVars => {
                    put_u32(out, 1);
                },
                ProjectionVariant::LastVars => {
                    put_u32(out, 2);
                },
            }
            proof {
                assert((((((old(out)@ + enc_u32(4)) + enc_u32(*inner as u32)) + enc_u32(
                    values@.len() as u32,
                )) + enc_vals(values@, 0)) + enc_u32(proj_tag(*variant))) =~= old(out)@
                    + enc_oracle(m@));
            }
        },
        MultilinearPolyOracle::Shifted { inner, shift_offset, block_size, variant } => {
            put_u32(out, 5);
            put_u32(out, *inner as u32);
            put_u32(out, *shift_offset as u32);
            put_u32(out, *block_size as u32);
            match variant {
                ShiftVariant::CircularLeft => {
                    put_u32(out, 1);
                },
                ShiftVariant::LogicalLeft => {
                    put_u32(out, 2);
                },
                ShiftVariant::LogicalRight => {
                    put_u32(out, 3);
                },
            }
            proof {
                assert((((((old(out)@ + enc_u32(5)) + enc_u32(*inner as u32)) + enc_u32(
                    *shift_offset as u32,
                )) + enc_u32(*block_size as u32)) + enc_u32(shift_tag(*variant))) =~= old(out)@
                    + enc_oracle(m@));
            }
        },
        MultilinearPolyOracle::Packed { inner, log_degree } => {
            put_u32(out, 6);
            put_u32(out, *inner as u32);
            put_u32(out, *log_degree as u32);
            proof {
                assert(((old(out)@ + enc_u32(6)) + enc_u32(*inner as u32)) + enc_u32(
                    *log_degree as u32,
                ) =~= old(out)@ + enc_oracle(m@));
            }
        },
        MultilinearPolyOracle::LinearCombination { n_vars, offset, terms } => {
            put_u32(out, 7);
            put_u32(out, *n_vars as u32);
            put_u128(out, *offset);
            put_u32(out, terms.len() as u32);
            let ghost pre = out@;
            let mut i: usize = 0;
            while i < terms.len()
                invariant
                    i <= terms@.len(),
                    terms_encodable(terms@),
                    out@ + enc_terms(terms@, i as int) == pre + enc_terms(terms@, 0),
                decreases terms@.len() - i,
            {
                let ghost out_pre = out@;
                let (id, c) = terms[i];
                put_u32(out, id as u32);
                put_u128(out, c);
                proof {
                    assert(out_pre + (enc_u32(terms@[i as int].0 as u32) + (enc_u128(
                        terms@[i as int].1,
                    ) + enc_terms(terms@, i as int + 1))) =~= ((out_pre + enc_u32(
                        terms@[i as int].0 as u32,
                    )) + enc_u128(terms@[i as int].1)) + enc_terms(terms@, i as int + 1));
                    assert(enc_terms(terms@, i as int) =~= enc_u32(terms@[i as int].0 as u32) + (
                    enc_u128(terms@[i as int].1) + enc_terms(terms@, i as int + 1)));
                }
                i = i + 1;
            }
            proof {
                assert(out@ + Seq::<u8>::empty() =~= out@);
                assert(((((old(out)@ + enc_u32(7)) + enc_u32(*n_vars as u32)) + enc_u128(*offset))
                    + enc_u32(terms@.len() as u32)) + enc_terms(terms@, 0) =~= old(out)@
                    + enc_oracle(m@));
            }
        },
        MultilinearPolyOracle::ZeroPadded { inner, n_vars } => {
            put_u32(out, 8);
            put_u32(out, *inner as u32);
            put_u32(out, *n_vars as u32);
            proof {
                assert(((old(out)@ + enc_u32(8)) + enc_u32(*inner as u32)) + enc_u32(
                    *n_vars as u32,
                ) =~= old(out)@ + enc_oracle(m@));
            }
        },
    }
}

/// Reads `n` linear-combination terms into a vector.
#[verifier::loop_isolation(false)]
fn get_terms(bytes: &Vec<u8>, pos: &mut usize, n: u32) -> (r: Result<Vec<(usize, u128)>, Error>)
    ensures
        match dec_terms(bytes@, *old(pos) as int, n as nat) {
            Some((ts, p)) => r matches Ok(v) && v@ == ts && *final(pos) == p,
            None => r == Err::<Vec<(usize, u128)>, Error>(Error::InvalidEncoding),
        },
{
    let ghost pos0 = *pos as int;
    let mut out: Vec<(usize, u128)> = Vec::new();
    let mut i: u32 = 0;
    while i < n
        invariant
            i <= n,
            out@.len() == i,
            dec_terms(bytes@, pos0, n as nat) == (match dec_terms(
                bytes@,
                *pos as int,
                (n - i) as nat,
            ) {
                Some((rest, p)) => Some::<(Seq<(usize, u128)>, int)>((out@ + rest, p)),
                None => None::<(Seq<(usize, u128)>, int)>,
            }),
        decreases n - i,
    {
        let ghost out_pre = out@;
        let ghost pos_pre = *pos as int;
        let id = match get_u32(bytes, pos) {
            Ok(v) => v,
            Err(e) => {
                return Err(e);
            },
        };
        let c = match get_u128(bytes, pos) {
            Ok(v) => v,
            Err(e) => {
                return Err(e);
            },
        };
        out.push((id as usize, c));
        proof {
            let rest_n = (n - i) as nat;
            assert(dec_terms(bytes@, pos_pre, rest_n) == (match dec_terms(
                bytes@,
                *pos as int,
                (rest_n - 1) as nat,
            ) {
                Some((rest2, p2)) => Some::<(Seq<(usize, u128)>, int)>(
                    (seq![(id as usize, c)] + rest2, p2),
                ),
                None => None::<(Seq<(usize, u128)>, int)>,
            }));
            match dec_terms(bytes@, *pos as int, (rest_n - 1) as nat) {
                Some((rest2, p2)) => {
                    assert(out_pre + (seq![(id as usize, c)] + rest2) =~= out@ + rest2);
                },
                None => {},
            }
        }
        i = i + 1;
    }
    proof {
        assert(out@ + Seq::<(usize, u128)>::empty() =~= out@);
    }
    Ok(out)
}

impl MultilinearOracleSet {
    /// Serializes the oracle graph.
    #[verifier::loop_isolation(false)]
    pub fn write(&self, out: &mut Vec<u8>)
        requires
            graph_encodable(self@),
        ensures
            final(out)@ == old(out)@ + enc_graph(self@),
    {
        let n = self.size();
        put_u32(out, n as u32);
        let ghost pre = out@;
        let mut i: usize = 0;
        while i < n
            invariant
                i <= self@.len(),
                n == self@.len(),
                out@ + enc_oracles(self@, i as int) == pre + enc_oracles(self@, 0),
            decreases n - i,
        {
            let ghost out_pre = out@;
            let o = self.oracle(i);
            put_oracle(out, &o);
            proof {
                assert(out_pre + (enc_oracle(self@[i as int]) + enc_oracles(self@, i as int + 1))
                    =~= (out_pre + enc_oracle(self@[i as int])) + enc_oracles(
                    self@,
                    i as int + 1,
                ));
            }
            i = i + 1;
        }
        proof {
            assert(out@ + Seq::<u8>::empty() =~= out@);
            assert((old(out)@ + enc_u32(self@.len() as u32)) + enc_oracles(self@, 0) =~= old(out)@
                + enc_graph(self@));
        }
    }

    /// Deserializes an oracle graph, validating every descriptor as it
    /// is re-registered; the result is well-formed.
    #[verifier::loop_isolation(false)]
    pub fn read(bytes: &Vec<u8>, pos: &mut usize) -> (r: Result<MultilinearOracleSet, Error>)
        ensures
            match dec_graph(bytes@, *old(pos) as int) {
                Some((s, p)) => r matches Ok(v) && v@ == s && v.wf() && *final(pos) == p,
                None => r == Err::<MultilinearOracleSet, Error>(Error::InvalidEncoding),
            },
    {
        let ghost pos0 = *pos as int;
        let n = match get_u32(bytes, pos) {
            Ok(v) => v,
            Err(e) => {
                return Err(e);
            },
        };
        let mut set = MultilinearOracleSet::new();
        let mut i: u32 = 0;
        while i < n
            invariant
                i <= n,
                set.wf(),
                dec_graph(bytes@, pos0) == dec_oracles(bytes@, *pos as int, (n - i) as nat, set@),
            decreases n - i,
        {
            match read_descriptor(bytes, pos, &mut set) {
                Ok(_) => {},
                Err(e) => {
                    return Err(e);
                },
            }
            i = i + 1;
        }
        Ok(set)
    }
}

/// Reads one descriptor and registers it on the graph, validating it.
#[verifier::rlimit(100)]
fn read_descriptor(bytes: &Vec<u8>, pos: &mut usize, set: &mut MultilinearOracleSet) -> (r: Result<
    (),
    Error,
>)
    requires
        old(set).wf(),
    ensures
        final(set).wf(),
        match dec_oracle(bytes@, *old(pos) as int, old(set)@) {
            Some((m, p)) => r is Ok && final(set)@ == old(set)@.push(m) && *final(pos) == p,
            None => r == Err::<(), Error>(Error::InvalidEncoding),
        },
{
    let ghost set_pre = set@;
    let ghost pos_pre = *pos as int;
    let tag = match get_u32(bytes, pos) {
        Ok(v) => v,
        Err(e) => {
            return Err(e);
        },
    };
    if tag == 1 {
                let ttag = match get_u32(bytes, pos) {
                    Ok(v) => v,
                    Err(e) => {
                        return Err(e);
                    },
                };
                if ttag == 1 {
                    let nv = match get_u32(bytes, pos) {
                        Ok(v) => v,
                        Err(e) => {
                            return Err(e);
                        },
                    };
                    let value = match get_u128(bytes, pos) {
                        Ok(v) => v,
                        Err(e) => {
                            return Err(e);
                        },
                    };
                    let tl = match get_u32(bytes, pos) {
                        Ok(v) => v,
                        Err(e) => {
                            return Err(e);
                        },
                    };
                    if tl > 7 {
                        return Err(Error::InvalidEncoding);
                    }
                    let poly = TransparentPoly::Constant(
                        Constant {
                            n_vars: nv as usize,
                            value,
                            tower_level: tl as usize,
                        },
                    );
                    match set.add_transparent(poly) {
                        Ok(_) => {},
                        Err(_) => {
                            proof {
                                assert(false);
                            }
                            return Err(Error::InvalidEncoding);
                        },
                    }
                } else if ttag == 2 {
                    let nv = match get_u32(bytes, pos) {
                        Ok(v) => v,
                        Err(e) => {
                            return Err(e);
                        },
                    };
                    let idx = match get_u32(bytes, pos) {
                        Ok(v) => v,
                        Err(e) => {
                            return Err(e);
                        },
                    };
                    let poly = match crate::transparent::step_down_new(nv as usize, idx as usize) {
                        Ok(p) => p,
                        Err(_) => {
                            return Err(Error::InvalidEncoding);
                        },
                    };
                    match set.add_transparent(poly) {
                        Ok(_) => {},
                        Err(_) => {
                            proof {
                                assert(false);
                            }
                            return Err(Error::InvalidEncoding);
                        },
                    }
                } else if ttag == 3 {
                    let nv = match get_u32(bytes, pos) {
                        Ok(v) => v,
                        Err(e) => {
                            return Err(e);
                        },
                    };
                    let ghost vp = *pos as int;
                    let point = match get_vals(bytes, pos, nv) {
                        Ok(v) => v,
                        Err(e) => {
                            return Err(e);
                        },
                    };
                    proof {
                        lemma_dec_vals_len(bytes@, vp, nv as nat);
                    }
                    let poly = TransparentPoly::EqInd { n_vars: nv as usize, point };
                    match set.add_transparent(poly) {
                        Ok(_) => {},
                        Err(_) => {
                            proof {
                                assert(false);
                            }
                            return Err(Error::InvalidEncoding);
                        },
                    }
                } else {
                    return Err(Error::InvalidEncoding);
                }
            } else if tag == 2 {
                let nv = match get_u32(bytes, pos) {
                    Ok(v) => v,
                    Err(e) => {
                        return Err(e);
                    },
                };
                let tl = match get_u32(bytes, pos) {
                    Ok(v) => v,
                    Err(e) => {
                        return Err(e);
                    },
                };
                let _ = set.add_committed(nv as usize, tl as usize);
            } else if tag == 3 {
                let inner = match get_u32(bytes, pos) {
                    Ok(v) => v,
                    Err(e) => {
                        return Err(e);
                    },
                };
                let lc = match get_u32(bytes, pos) {
                    Ok(v) => v,
                    Err(e) => {
                        return Err(e);
                    },
                };
                match set.add_repeating(inner as usize, lc as usize) {
                    Ok(_) => {},
                    Err(_) => {
                        return Err(Error::InvalidEncoding);
                    },
                }
            } else if tag == 4 {
                let inner = match get_u32(bytes, pos) {
                    Ok(v) => v,
                    Err(e) => {
                        return Err(e);
                    },
                };
                let vn = match get_u32(bytes, pos) {
                    Ok(v) => v,
                    Err(e) => {
                        return Err(e);
                    },
                };
                let values = match get_vals(bytes, pos, vn) {
                    Ok(v) => v,
                    Err(e) => {
                        return Err(e);
                    },
                };
                let vt = match get_u32(bytes, pos) {
                    Ok(v) => v,
                    Err(e) => {
                        return Err(e);
                    },
                };
                let variant = if vt == 1 {
                    ProjectionVariant::FirstVars
                } else if vt == 2 {
                    ProjectionVariant::LastVars
                } else {
                    return Err(Error::InvalidEncoding);
                };
                match set.add_projected(inner as usize, values, variant) {
                    Ok(_) => {},
                    Err(_) => {
                        return Err(Error::InvalidEncoding);
                    },
                }
            } else if tag == 5 {
                let inner = match get_u32(bytes, pos) {
                    Ok(v) => v,
                    Err(e) => {
                        return Err(e);
                    },
                };
                let off = match get_u32(bytes, pos) {
                    Ok(v) => v,
                    Err(e) => {
                        return Err(e);
                    },
                };
                let bb = match get_u32(bytes, pos) {
                    Ok(v) => v,
                    Err(e) => {
                        return Err(e);
                    },
                };
                let vt = match get_u32(bytes, pos) {
                    Ok(v) => v,
                    Err(e) => {
                        return Err(e);
                    },
                };
                let variant = if vt == 1 {
                    ShiftVariant::CircularLeft
                } else if vt == 2 {
                    ShiftVariant::LogicalLeft
                } else if vt == 3 {
                    ShiftVariant::LogicalRight
                } else {
                    return Err(Error::InvalidEncoding);
                };
                match set.add_shifted(inner as usize, off as usize, bb as usize, variant) {
                    Ok(_) => {},
                    Err(_) => {
                        return Err(Error::InvalidEncoding);
                    },
                }
            } else if tag == 6 {
                let inner = match get_u32(bytes, pos) {
                    Ok(v) => v,
                    Err(e) => {
                        return Err(e);
                    },
                };
                let ld = match get_u32(bytes, pos) {
                    Ok(v) => v,
                    Err(e) => {
                        return Err(e);
                    },
                };
                match set.add_packed(inner as usize, ld as usize) {
                    Ok(_) => {},
                    Err(_) => {
                        return Err(Error::InvalidEncoding);
                    },
                }
            } else if tag == 7 {
                let nv = match get_u32(bytes, pos) {
                    Ok(v) => v,
                    Err(e) => {
                        return Err(e);
                    },
                };
                let off = match get_u128(bytes, pos) {
                    Ok(v) => v,
                    Err(e) => {
                        return Err(e);
                    },
                };
                let tn = match get_u32(bytes, pos) {
                    Ok(v) => v,
                    Err(e) => {
                        return Err(e);
                    },
                };
                let terms = match get_terms(bytes, pos, tn) {
                    Ok(v) => v,
                    Err(e) => {
                        return Err(e);
                    },
                };
                match set.add_linear_combination_with_offset(nv as usize, off, terms) {
                    Ok(_) => {},
                    Err(_) => {
                        return Err(Error::InvalidEncoding);
                    },
                }
            } else if tag == 8 {
                let inner = match get_u32(bytes, pos) {
                    Ok(v) => v,
                    Err(e) => {
                        return Err(e);
                    },
                };
                let nv = match get_u32(bytes, pos) {
                    Ok(v) => v,
                    Err(e) => {
                        return Err(e);
                    },
                };
                match set.add_zero_padded(inner as usize, nv as usize) {
                    Ok(_) => {},
                    Err(_) => {
                        return Err(Error::InvalidEncoding);
                    },
                }
    } else {
        return Err(Error::InvalidEncoding);
    }
    Ok(())
}


/// The encoding of a list of constraint sets from position `i` on.
pub open spec fn enc_css(cs: Seq<ConstraintSetModel>, i: int) -> Seq<u8>
    decreases cs.len() - i,
{
    if i < 0 || i >= cs.len() {
        Seq::<u8>::empty()
    } else {
        enc_cs(cs[i]) + enc_css(cs, i + 1)
    }
}

/// Reads `n` constraint sets.
pub open spec fn dec_css(bytes: Seq<u8>, pos: int, n: nat) -> Option<
    (Seq<ConstraintSetModel>, int),
>
    decreases n,
{
    if n == 0 {
        Some((Seq::<ConstraintSetModel>::empty(), pos))
    } else {
        match dec_cs(bytes, pos) {
            None => None,
            Some((m, p)) => match dec_css(bytes, p, (n - 1) as nat) {
                None => None,
                Some((rest, p2)) => Some((seq![m] + rest, p2)),
            },
        }
    }
}

/// Decoding inverts encoding for constraint-set lists.
pub proof fn lemma_dec_enc_css(cs: Seq<ConstraintSetModel>, i: int, bytes: Seq<u8>, pos: int)
    requires
        0 <= i <= cs.len(),
        forall|k: int| 0 <= k < cs.len() ==> cs_encodable(#[trigger] cs[k]),
        0 <= pos,
        pos + enc_css(cs, i).len() <= bytes.len(),
        bytes.subrange(pos, pos + enc_css(cs, i).len()) == enc_css(cs, i),
    ensures
        dec_css(bytes, pos, (cs.len() - i) as nat) == Some(
            (cs.skip(i), pos + enc_css(cs, i).len()),
        ),
    decreases cs.len() - i,
{
    if i == cs.len() {
        assert(cs.skip(i) =~= Seq::<ConstraintSetModel>::empty());
    } else {
        let a = enc_cs(cs[i]);
        let b = enc_css(cs, i + 1);
        lemma_split_prefix(bytes, pos, a, b);
        lemma_dec_enc_cs(cs[i], bytes, pos);
        lemma_dec_enc_css(cs, i + 1, bytes, pos + a.len());
        assert(cs.skip(i) =~= seq![cs[i]] + cs.skip(i + 1));
    }
}

/// The encoding of a list of flushes from position `i` on.
pub open spec fn enc_flushes(fs: Seq<FlushModel>, i: int) -> Seq<u8>
    decreases fs.len() - i,
{
    if i < 0 || i >= fs.len() {
        Seq::<u8>::empty()
    } else {
        enc_flush(fs[i]) + enc_flushes(fs, i + 1)
    }
}

/// Reads `n` flushes.
pub open spec fn dec_flushes(bytes: Seq<u8>, pos: int, n: nat) -> Option<(Seq<FlushModel>, int)>
    decreases n,
{
    if n == 0 {
        Some((Seq::<FlushModel>::empty(), pos))
    } else {
        match dec_flush(bytes, pos) {
            None => None,
            Some((m, p)) => match dec_flushes(bytes, p, (n - 1) as nat) {
                None => None,
                Some((rest, p2)) => Some((seq![m] + rest, p2)),
            },
        }
    }
}

/// Decoding inverts encoding for flush lists.
pub proof fn lemma_dec_enc_flushes(fs: Seq<FlushModel>, i: int, bytes: Seq<u8>, pos: int)
    requires
        0 <= i <= fs.len(),
        forall|k: int| 0 <= k < fs.len() ==> flush_encodable(#[trigger] fs[k]),
        0 <= pos,
        pos + enc_flushes(fs, i).len() <= bytes.len(),
        bytes.subrange(pos, pos + enc_flushes(fs, i).len()) == enc_flushes(fs, i),
    ensures
        dec_flushes(bytes, pos, (fs.len() - i) as nat) == Some(
            (fs.skip(i), pos + enc_flushes(fs, i).len()),
        ),
    decreases fs.len() - i,
{
    if i == fs.len() {
        assert(fs.skip(i) =~= Seq::<FlushModel>::empty());
    } else {
        let a = enc_flush(fs[i]);
        let b = enc_flushes(fs, i + 1);
        lemma_split_prefix(bytes, pos, a, b);
        lemma_dec_enc_flush(fs[i], bytes, pos);
        lemma_dec_enc_flushes(fs, i + 1, bytes, pos + a.len());
        assert(fs.skip(i) =~= seq![fs[i]] + fs.skip(i + 1));
    }
}

/// Whether a constraint system fits its encoding and is well-formed
/// enough to survive a decode: the oracle graph must validate.
pub open spec fn system_encodable(m: ConstraintSystemModel) -> bool {
    &&& crate::oracle::graph_wf(m.oracles)
    &&& graph_encodable(m.oracles)
    &&& m.table_constraints.len() <= u32::MAX
    &&& (forall|k: int|
        0 <= k < m.table_constraints.len() ==> cs_encodable(#[trigger] m.table_constraints[k]))
    &&& ids_encodable(m.non_zero_oracle_ids)
    &&& m.flushes.len() <= u32::MAX
    &&& (forall|k: int| 0 <= k < m.flushes.len() ==> flush_encodable(#[trigger] m.flushes[k]))
    &&& m.max_channel_id <= u32::MAX
}

/// The byte encoding of a constraint system: the oracle graph, the
/// constraint sets, the non-zero oracle list, the flushes, the highest
/// channel id.
pub open spec fn enc_system(m: ConstraintSystemModel) -> Seq<u8> {
    enc_graph(m.oracles) + enc_u32(m.table_constraints.len() as u32) + enc_css(
        m.table_constraints,
        0,
    ) + enc_u32(m.non_zero_oracle_ids.len() as u32) + enc_ids(m.non_zero_oracle_ids, 0) + enc_u32(
        m.flushes.len() as u32,
    ) + enc_flushes(m.flushes, 0) + enc_u32(m.max_channel_id as u32)
}

/// Reads a constraint system at `pos`.
pub open spec fn dec_system(bytes: Seq<u8>, pos: int) -> Option<(ConstraintSystemModel, int)> {
    match dec_graph(bytes, pos) {
        None => None,
        Some((oracles, p1)) => match dec_u32(bytes, p1) {
            None => None,
            Some((csn, p2)) => match dec_css(bytes, p2, csn as nat) {
                None => None,
                Some((table_constraints, p3)) => match dec_u32(bytes, p3) {
                    None => None,
                    Some((nzn, p4)) => match dec_ids(bytes, p4, nzn as nat) {
                        None => None,
                        Some((non_zero_oracle_ids, p5)) => match dec_u32(bytes, p5) {
                            None => None,
                            Some((fn_, p6)) => match dec_flushes(bytes, p6, fn_ as nat) {
                                None => None,
                                Some((flushes, p7)) => match dec_u32(bytes, p7) {
                                    None => None,
                                    Some((mx, p8)) => Some(
                                        (
                                            ConstraintSystemModel {
                                                oracles,
                                                table_constraints,
                                                non_zero_oracle_ids,
                                                flushes,
                                                max_channel_id: mx as usize,
                                            },
                                            p8,
                                        ),
                                    ),
                                },
                            },
                        },
                    },
                },
            },
        },
    }
}

/// Decoding inverts encoding for whole constraint systems: the
/// round-trip law for persisted systems.
#[verifier::rlimit(100)]
#[verifier::spinoff_prover]
pub proof fn lemma_dec_enc_system(m: ConstraintSystemModel, bytes: Seq<u8>, pos: int)
    requires
        system_encodable(m),
        0 <= pos,
        pos + enc_system(m).len() <= bytes.len(),
        bytes.subrange(pos, pos + enc_system(m).len()) == enc_system(m),
    ensures
        dec_system(bytes, pos) == Some((m, pos + enc_system(m).len())),
{
    lemma_enc_widths();
    let a1 = enc_graph(m.oracles);
    let a2 = enc_u32(m.table_constraints.len() as u32);
    let a3 = enc_css(m.table_constraints, 0);
    let a4 = enc_u32(m.non_zero_oracle_ids.len() as u32);
    let a5 = enc_ids(m.non_zero_oracle_ids, 0);
    let a6 = enc_u32(m.flushes.len() as u32);
    let a7 = enc_flushes(m.flushes, 0);
    let a8 = enc_u32(m.max_channel_id as u32);
    lemma_enc_ids_len(m.non_zero_oracle_ids, 0);
    assert(enc_system(m) =~= a1 + (a2 + a3 + a4 + a5 + a6 + a7 + a8));
    lemma_split_prefix(bytes, pos, a1, a2 + a3 + a4 + a5 + a6 + a7 + a8);
    lemma_dec_enc_graph(m.oracles, bytes, pos);
    let p1 = pos + a1.len();
    assert(a2 + a3 + a4 + a5 + a6 + a7 + a8 =~= a2 + (a3 + a4 + a5 + a6 + a7 + a8));
    lemma_split_prefix(bytes, p1, a2, a3 + a4 + a5 + a6 + a7 + a8);
    lemma_dec_enc_u32(m.table_constraints.len() as u32, bytes, p1);
    let p2 = p1 + 4;
    assert(a3 + a4 + a5 + a6 + a7 + a8 =~= a3 + (a4 + a5 + a6 + a7 + a8));
    lemma_split_prefix(bytes, p2, a3, a4 + a5 + a6 + a7 + a8);
    lemma_dec_enc_css(m.table_constraints, 0, bytes, p2);
    assert(m.table_constraints.skip(0) =~= m.table_constraints);
    let p3 = p2 + a3.len();
    assert(a4 + a5 + a6 + a7 + a8 =~= a4 + (a5 + a6 + a7 + a8));
    lemma_split_prefix(bytes, p3, a4, a5 + a6 + a7 + a8);
    lemma_dec_enc_u32(m.non_zero_oracle_ids.len() as u32, bytes, p3);
    let p4 = p3 + 4;
    assert(a5 + a6 + a7 + a8 =~= a5 + (a6 + a7 + a8));
    lemma_split_prefix(bytes, p4, a5, a6 + a7 + a8);
    lemma_dec_enc_ids(m.non_zero_oracle_ids, 0, bytes, p4);
    assert(m.non_zero_oracle_ids.skip(0) =~= m.non_zero_oracle_ids);
    let p5 = p4 + a5.len();
    assert(a6 + a7 + a8 =~= a6 + (a7 + a8));
    lemma_split_prefix(bytes, p5, a6, a7 + a8);
    lemma_dec_enc_u32(m.flushes.len() as u32, bytes, p5);
    let p6 = p5 + 4;
    lemma_split_prefix(bytes, p6, a7, a8);
    lemma_dec_enc_flushes(m.flushes, 0, bytes, p6);
    assert(m.flushes.skip(0) =~= m.flushes);
    let p7 = p6 + a7.len();
    lemma_dec_enc_u32(m.max_channel_id as u32, bytes, p7);
    assert((m.table_constraints.len() as u32) as nat == m.table_constraints.len());
    assert((m.non_zero_oracle_ids.len() as u32) as nat == m.non_zero_oracle_ids.len());
    assert((m.flushes.len() as u32) as nat == m.flushes.len());
    assert((m.max_channel_id as u32) as usize == m.max_channel_id);
}

/// Whether a handle list lies within the format's bounds.
fn check_ids(ids: &Vec<usize>) -> (r: bool)
    ensures
        r == ids_encodable(ids@),
{
    if ids.len() > u32::MAX as usize {
        return false;
    }
    let mut i: usize = 0;
    while i < ids.len()
        invariant
            i <= ids@.len(),
            forall|j: int| 0 <= j < i ==> (#[trigger] ids@[j]) <= u32::MAX,
        decreases ids@.len() - i,
    {
        if ids[i] > u32::MAX as usize {
            return false;
        }
        i = i + 1;
    }
    true
}

/// Whether a composition lies within the format's bounds.
fn check_expr(e: &ArithExpr<7>) -> (r: bool)
    ensures
        r == expr_encodable(*e),
    decreases *e,
{
    match e {
        ArithExpr::Const(_) => true,
        ArithExpr::Var(i) => *i <= u32::MAX as usize,
        ArithExpr::Add(l, r) => check_expr(l) && check_expr(r),
        ArithExpr::Mul(l, r) => check_expr(l) && check_expr(r),
        ArithExpr::Pow(b, _) => check_expr(b),
    }
}

/// Whether one oracle descriptor lies within the format's bounds.
#[verifier::loop_isolation(false)]
fn check_oracle(o: &MultilinearPolyOracle) -> (r: bool)
    ensures
        r == oracle_encodable(o@),
{
    match o {
        MultilinearPolyOracle::Transparent { poly } => match poly {
            TransparentPoly::Constant(c) => c.n_vars <= u32::MAX as usize && c.tower_level
                <= u32::MAX as usize,
            TransparentPoly::StepDown { n_vars, index } => *n_vars <= u32::MAX as usize && *index
                <= u32::MAX as usize,
            TransparentPoly::EqInd { n_vars, point } => *n_vars <= u32::MAX as usize && point.len()
                == *n_vars,
        },
        MultilinearPolyOracle::Committed { n_vars, tower_level } => *n_vars <= u32::MAX as usize
            && *tower_level <= u32::MAX as usize,
        MultilinearPolyOracle::Repeating { inner, log_count } => *inner <= u32::MAX as usize
            && *log_count <= u32::MAX as usize,
        MultilinearPolyOracle::Projected { inner, values, .. } => *inner <= u32::MAX as usize
            && values.len() <= u32::MAX as usize,
        MultilinearPolyOracle::Shifted { inner, shift_offset, block_size, .. } => *inner
            <= u32::MAX as usize && *shift_offset <= u32::MAX as usize && *block_size
            <= u32::MAX as usize,
        MultilinearPolyOracle::Packed { inner, log_degree } => *inner <= u32::MAX as usize
            && *log_degree <= u32::MAX as usize,
        MultilinearPolyOracle::LinearCombination { n_vars, terms, .. } => {
            if *n_vars > u32::MAX as usize || terms.len() > u32::MAX as usize {
                return false;
            }
            let mut j: usize = 0;
            while j < terms.len()
                invariant
                    j <= terms@.len(),
                    forall|q: int| 0 <= q < j ==> (#[trigger] terms@[q]).0 <= u32::MAX,
                decreases terms@.len() - j,
            {
                if terms[j].0 > u32::MAX as usize {
                    proof {
                        assert(o@->LinearCombination_terms == terms@);
                        assert((terms@[j as int]).0 > u32::MAX);
                        assert(!terms_encodable(terms@));
                    }
                    return false;
                }
                j = j + 1;
            }
            true
        },
        MultilinearPolyOracle::ZeroPadded { inner, n_vars } => *inner <= u32::MAX as usize
            && *n_vars <= u32::MAX as usize,
    }
}

impl ConstraintSystem {
    /// Whether the system is well-formed and lies within the format's
    /// count and handle bounds, so that `write` accepts it: an
    /// executable mirror of `system_encodable`.
    #[verifier::loop_isolation(false)]
    pub fn is_encodable(&self) -> (r: bool)
        ensures
            r == system_encodable(self@),
    {
        if !self.oracles.check_wf() {
            return false;
        }
        let n = self.oracles.size();
        if n > u32::MAX as usize {
            return false;
        }
        let mut i: usize = 0;
        while i < n
            invariant
                i <= n,
                forall|k: int| 0 <= k < i ==> oracle_encodable(#[trigger] self@.oracles[k]),
            decreases n - i,
        {
            let o = self.oracles.oracle(i);
            if !check_oracle(&o) {
                return false;
            }
            i = i + 1;
        }
        if self.table_constraints.len() > u32::MAX as usize {
            return false;
        }
        let mut i: usize = 0;
        while i < self.table_constraints.len()
            invariant
                i <= self.table_constraints@.len(),
                forall|k: int|
                    0 <= k < i ==> cs_encodable(#[trigger] self@.table_constraints[k]),
            decreases self.table_constraints@.len() - i,
        {
            let cs = &self.table_constraints[i];
            proof {
                assert(self@.table_constraints[i as int] == cs@);
            }
            if cs.n_vars > u32::MAX as usize || !check_ids(&cs.oracle_ids)
                || cs.constraints.len() > u32::MAX as usize {
                return false;
            }
            let mut j: usize = 0;
            while j < cs.constraints.len()
                invariant
                    j <= cs.constraints@.len(),
                    forall|q: int|
                        0 <= q < j ==> constraint_encodable(#[trigger] cs@.constraints[q]),
                decreases cs.constraints@.len() - j,
            {
                let c = &cs.constraints[j];
                proof {
                    assert(cs@.constraints[j as int] == c@);
                }
                if c.name.len() > u32::MAX as usize || !check_expr(&c.composition) {
                    return false;
                }
                j = j + 1;
            }
            i = i + 1;
        }
        if !check_ids(&self.non_zero_oracle_ids) {
            return false;
        }
        if self.flushes.len() > u32::MAX as usize {
            return false;
        }
        let mut i: usize = 0;
        while i < self.flushes.len()
            invariant
                i <= self.flushes@.len(),
                forall|k: int| 0 <= k < i ==> flush_encodable(#[trigger] self@.flushes[k]),
            decreases self.flushes@.len() - i,
        {
            let f = &self.flushes[i];
            proof {
                assert(self@.flushes[i as int] == f@);
            }
            if !check_ids(&f.oracles) || f.channel_id > u32::MAX as usize || f.count
                > u32::MAX as usize {
                return false;
            }
            i = i + 1;
        }
        if self.max_channel_id > u32::MAX as usize {
            return false;
        }
        true
    }

    /// Serializes the constraint system.
    #[verifier::loop_isolation(false)]
    pub fn write(&self, out: &mut Vec<u8>)
        requires
            system_encodable(self@),
        ensures
            final(out)@ == old(out)@ + enc_system(self@),
    {
        self.oracles.write(out);
        put_u32(out, self.table_constraints.len() as u32);
        let ghost pre_css = out@;
        let mut i: usize = 0;
        while i < self.table_constraints.len()
            invariant
                i <= self@.table_constraints.len(),
                self@.table_constraints.len() == self.table_constraints@.len(),
                out@ + enc_css(self@.table_constraints, i as int) == pre_css + enc_css(
                    self@.table_constraints,
                    0,
                ),
            decreases self@.table_constraints.len() - i,
        {
            let ghost out_pre = out@;
            proof {
                assert(self@.table_constraints[i as int] == self.table_constraints@[i as int]@);
            }
            self.table_constraints[i].write(out);
            proof {
                assert(out_pre + (enc_cs(self@.table_constraints[i as int]) + enc_css(
                    self@.table_constraints,
                    i as int + 1,
                )) =~= (out_pre + enc_cs(self@.table_constraints[i as int])) + enc_css(
                    self@.table_constraints,
                    i as int + 1,
                ));
            }
            i = i + 1;
        }
        proof {
            assert(out@ + Seq::<u8>::empty() =~= out@);
        }
        put_u32(out, self.non_zero_oracle_ids.len() as u32);
        put_ids(out, &self.non_zero_oracle_ids);
        put_u32(out, self.flushes.len() as u32);
        let ghost pre_fl = out@;
        let mut i: usize = 0;
        while i < self.flushes.len()
            invariant
                i <= self@.flushes.len(),
                self@.flushes.len() == self.flushes@.len(),
                out@ + enc_flushes(self@.flushes, i as int) == pre_fl + enc_flushes(
                    self@.flushes,
                    0,
                ),
            decreases self@.flushes.len() - i,
        {
            let ghost out_pre = out@;
            proof {
                assert(self@.flushes[i as int] == self.flushes@[i as int]@);
            }
            self.flushes[i].write(out);
            proof {
                assert(out_pre + (enc_flush(self@.flushes[i as int]) + enc_flushes(
                    self@.flushes,
                    i as int + 1,
                )) =~= (out_pre + enc_flush(self@.flushes[i as int])) + enc_flushes(
                    self@.flushes,
                    i as int + 1,
                ));
            }
            i = i + 1;
        }
        proof {
            assert(out@ + Seq::<u8>::empty() =~= out@);
        }
        put_u32(out, self.max_channel_id as u32);
        proof {
            assert((((((((old(out)@ + enc_graph(self@.oracles)) + enc_u32(
                self@.table_constraints.len() as u32,
            )) + enc_css(self@.table_constraints, 0)) + enc_u32(
                self@.non_zero_oracle_ids.len() as u32,
            )) + enc_ids(self@.non_zero_oracle_ids, 0)) + enc_u32(self@.flushes.len() as u32))
                + enc_flushes(self@.flushes, 0)) + enc_u32(self@.max_channel_id as u32) =~= old(
                out,
            )@ + enc_system(self@));
        }
    }

    /// Deserializes a constraint system, advancing the position; the
    /// embedded oracle graph is validated and well-formed.
    #[verifier::loop_isolation(false)]
    pub fn read(bytes: &Vec<u8>, pos: &mut usize) -> (r: Result<ConstraintSystem, Error>)
        ensures
            match dec_system(bytes@, *old(pos) as int) {
                Some((m, p)) => r matches Ok(v) && v@ == m && v.oracles.wf() && *final(pos) == p,
                None => r == Err::<ConstraintSystem, Error>(Error::InvalidEncoding),
            },
    {
        let oracles = match MultilinearOracleSet::read(bytes, pos) {
            Ok(v) => v,
            Err(e) => {
                return Err(e);
            },
        };
        let csn = match get_u32(bytes, pos) {
            Ok(v) => v,
            Err(e) => {
                return Err(e);
            },
        };
        let ghost pos_css = *pos as int;
        let mut table_constraints: Vec<ConstraintSet> = Vec::new();
        let mut i: u32 = 0;
        while i < csn
            invariant
                i <= csn,
                table_constraints@.len() == i,
                dec_css(bytes@, pos_css, csn as nat) == (match dec_css(
                    bytes@,
                    *pos as int,
                    (csn - i) as nat,
                ) {
                    Some((rest, p)) => Some::<(Seq<ConstraintSetModel>, int)>(
                        (table_constraints@.map_values(|c: ConstraintSet| c@) + rest, p),
                    ),
                    None => None::<(Seq<ConstraintSetModel>, int)>,
                }),
            decreases csn - i,
        {
            let ghost cs_pre = table_constraints@.map_values(|c: ConstraintSet| c@);
            let ghost pos_pre = *pos as int;
            let c = match ConstraintSet::read(bytes, pos) {
                Ok(v) => v,
                Err(e) => {
                    return Err(e);
                },
            };
            table_constraints.push(c);
            proof {
                let rest_n = (csn - i) as nat;
                assert(table_constraints@.map_values(|c: ConstraintSet| c@) =~= cs_pre.push(c@));
                match dec_css(bytes@, *pos as int, (rest_n - 1) as nat) {
                    Some((rest2, p2)) => {
                        assert(cs_pre + (seq![c@] + rest2) =~= table_constraints@.map_values(
                            |c: ConstraintSet| c@,
                        ) + rest2);
                    },
                    None => {},
                }
            }
            i = i + 1;
        }
        proof {
            assert(table_constraints@.map_values(|c: ConstraintSet| c@)
                + Seq::<ConstraintSetModel>::empty() =~= table_constraints@.map_values(
                |c: ConstraintSet| c@,
            ));
        }
        let nzn = match get_u32(bytes, pos) {
            Ok(v) => v,
            Err(e) => {
                return Err(e);
            },
        };
        let non_zero_oracle_ids = match get_ids(bytes, pos, nzn) {
            Ok(v) => v,
            Err(e) => {
                return Err(e);
            },
        };
        let fln = match get_u32(bytes, pos) {
            Ok(v) => v,
            Err(e) => {
                return Err(e);
            },
        };
        let ghost pos_fl = *pos as int;
        let mut flushes: Vec<Flush> = Vec::new();
        let mut i: u32 = 0;
        while i < fln
            invariant
                i <= fln,
                flushes@.len() == i,
                dec_flushes(bytes@, pos_fl, fln as nat) == (match dec_flushes(
                    bytes@,
                    *pos as int,
                    (fln - i) as nat,
                ) {
                    Some((rest, p)) => Some::<(Seq<FlushModel>, int)>(
                        (flushes@.map_values(|f: Flush| f@) + rest, p),
                    ),
                    None => None::<(Seq<FlushModel>, int)>,
                }),
            decreases fln - i,
        {
            let ghost fl_pre = flushes@.map_values(|f: Flush| f@);
            let ghost pos_pre = *pos as int;
            let f = match Flush::read(bytes, pos) {
                Ok(v) => v,
                Err(e) => {
                    return Err(e);
                },
            };
            flushes.push(f);
            proof {
                let rest_n = (fln - i) as nat;
                assert(flushes@.map_values(|f: Flush| f@) =~= fl_pre.push(f@));
                match dec_flushes(bytes@, *pos as int, (rest_n - 1) as nat) {
                    Some((rest2, p2)) => {
                        assert(fl_pre + (seq![f@] + rest2) =~= flushes@.map_values(
                            |f: Flush| f@,
                        ) + rest2);
                    },
                    None => {},
                }
            }
            i = i + 1;
        }
        proof {
            assert(flushes@.map_values(|f: Flush| f@) + Seq::<FlushModel>::empty()
                =~= flushes@.map_values(|f: Flush| f@));
        }
        let mx = match get_u32(bytes, pos) {
            Ok(v) => v,
            Err(e) => {
                return Err(e);
            },
        };
        Ok(
            ConstraintSystem {
                oracles,
                table_constraints,
                non_zero_oracle_ids,
                flushes,
                max_channel_id: mx as usize,
            },
        )
    }
}

} // verus!

