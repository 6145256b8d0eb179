//! The Fiat-Shamir transcript: two synchronized byte streams shared by
//! prover and verifier, and the deterministic challenge sampler.
//!
//! The transcript stream is hashed into the sampler as it is consumed;
//! the advice stream carries auxiliary data outside the hash chain.
//! Finalizing either stream rejects unread trailing bytes.
use vstd::prelude::*;

use crate::error::{Error, VerificationError};

verus! {

/// The digest of the Grøstl-256 hash over the given bytes: a function
/// of the input alone.
pub uninterp spec fn groestl256_of(data: Seq<u8>) -> Seq<u8>;

/// Relies on groestl::Groestl256 through its Digest implementation: the
/// 32-byte Grøstl-256 digest of the input, depending on the input bytes
/// alone.
#[verifier::external_body]
fn groestl256(data: &Vec<u8>) -> (r: Vec<u8>)
    ensures
        r@ == groestl256_of(data@),
        r@.len() == 32,
{
    let digest = <groestl::Groestl256 as groestl::Digest>::digest(data.as_slice());
    digest.to_vec()
}

/// The deterministic challenge sampler: every observed byte enters the
/// running state, and challenges are digests of the state and a
/// counter.
pub struct Challenger {
    observed: Vec<u8>,
    counter: u64,
}

/// The sampler's mathematical state: what it has observed and how many
/// challenges it has issued.
pub ghost struct ChallengerModel {
    pub observed: Seq<u8>,
    pub counter: u64,
}

impl View for Challenger {
    type V = ChallengerModel;

    closed spec fn view(&self) -> ChallengerModel {
        ChallengerModel { observed: self.observed@, counter: self.counter }
    }
}

/// The field element a sampler in the given state issues next: the low
/// sixteen digest bytes of the state and counter, read little-endian.
pub open spec fn spec_sample(observed: Seq<u8>, counter: u64) -> u128 {
    vstd::bytes::spec_u128_from_le_bytes(
        groestl256_of(observed + vstd::bytes::spec_u64_to_le_bytes(counter)).take(16),
    )
}

impl Challenger {
    /// A fresh sampler with nothing observed.
    pub fn new() -> (r: Self)
        ensures
            r@ == (ChallengerModel { observed: Seq::<u8>::empty(), counter: 0u64 }),
    {
        let r = Challenger { observed: Vec::new(), counter: 0 };
        proof {
            assert(r@.observed =~= Seq::<u8>::empty());
        }
        r
    }

    /// Feeds bytes into the sampler's state.
    pub fn observe(&mut self, data: &Vec<u8>)
        ensures
            final(self)@.observed == old(self)@.observed + data@,
            final(self)@.counter == old(self)@.counter,
    {
        let mut i: usize = 0;
        while i < data.len()
            invariant
                i <= data@.len(),
                self@.observed == old(self)@.observed + data@.take(i as int),
                self@.counter == old(self)@.counter,
            decreases data@.len() - i,
        {
            let ghost pre = self@.observed;
            self.observed.push(data[i]);
            proof {
                assert(old(self)@.observed + data@.take(i as int + 1) =~= pre.push(
                    data@[i as int],
                ));
            }
            i = i + 1;
        }
        proof {
            assert(data@.take(data@.len() as int) == data@);
        }
    }

    /// Samples one field element; the state's counter moves on, so the
    /// next sample differs.
    pub fn sample(&mut self) -> (r: u128)
        requires
            old(self)@.counter < u64::MAX,
        ensures
            r == spec_sample(old(self)@.observed, old(self)@.counter),
            final(self)@.observed == old(self)@.observed,
            final(self)@.counter == old(self)@.counter + 1,
    {
        let mut buf: Vec<u8> = Vec::new();
        crate::codec::append_bytes(&mut buf, &self.observed);
        crate::codec::put_u64(&mut buf, self.counter);
        proof {
            assert(Seq::<u8>::empty() + self@.observed =~= self@.observed);
        }
        let digest = groestl256(&buf);
        let half = vstd::slice::slice_subrange(digest.as_slice(), 0, 16);
        proof {
            assert(half@ =~= groestl256_of(self@.observed + vstd::bytes::spec_u64_to_le_bytes(
                self@.counter,
            )).take(16));
        }
        let r = vstd::bytes::u128_from_le_bytes(half);
        self.counter = self.counter + 1;
        r
    }

    /// The number of challenges issued so far.
    pub fn counter(&self) -> (r: u64)
        ensures
            r == self@.counter,
    {
        self.counter
    }

    /// Samples `n` field elements in order.
    pub fn sample_vec(&mut self, n: usize) -> (r: Vec<u128>)
        requires
            old(self)@.counter + n <= u64::MAX,
        ensures
            r@.len() == n,
            final(self)@.observed == old(self)@.observed,
            final(self)@.counter == old(self)@.counter + n,
            forall|j: int|
                0 <= j < n ==> r@[j] == spec_sample(
                    old(self)@.observed,
                    (old(self)@.counter + j) as u64,
                ),
    {
        let mut out: Vec<u128> = Vec::new();
        let mut i: usize = 0;
        while i < n
            invariant
                i <= n,
                out@.len() == i,
                self@.observed == old(self)@.observed,
                self@.counter == old(self)@.counter + i,
                old(self)@.counter + n <= u64::MAX,
                forall|j: int|
                    0 <= j < i ==> out@[j] == spec_sample(
                        old(self)@.observed,
                        (old(self)@.counter + j) as u64,
                    ),
            decreases n - i,
        {
            let v = self.sample();
            out.push(v);
            i = i + 1;
        }
        out
    }
}

/// The reader of one proof byte stream: bytes are consumed in order
/// and the stream must be drained exactly.
pub struct StreamReader {
    data: Vec<u8>,
    position: usize,
}

/// The reader's mathematical state.
pub ghost struct StreamReaderModel {
    pub data: Seq<u8>,
    pub position: int,
}

impl View for StreamReader {
    type V = StreamReaderModel;

    closed spec fn view(&self) -> StreamReaderModel {
        StreamReaderModel { data: self.data@, position: self.position as int }
    }
}

impl StreamReader {
    /// A reader over a whole stream, at its start.
    pub fn new(data: Vec<u8>) -> (r: Self)
        ensures
            r@ == (StreamReaderModel { data: data@, position: 0int }),
    {
        StreamReader { data, position: 0 }
    }

    /// The reader's well-formedness: the position lies in the stream.
    pub open spec fn wf(&self) -> bool {
        0 <= self@.position <= self@.data.len()
    }

    /// Reads `n` raw bytes, advancing the position; fails without
    /// moving when fewer remain.
    pub fn read_bytes(&mut self, n: usize) -> (r: Result<Vec<u8>, Error>)
        requires
            old(self).wf(),
        ensures
            final(self).wf(),
            final(self)@.data == old(self)@.data,
            old(self)@.position + n <= old(self)@.data.len() ==> (r matches Ok(v) && v@ == old(
                self,
            )@.data.subrange(old(self)@.position, old(self)@.position + n) && final(self)@.position
                == old(self)@.position + n),
            old(self)@.position + n > old(self)@.data.len() ==> r == Err::<Vec<u8>, Error>(
                Error::InvalidEncoding,
            ) && final(self)@ == old(self)@,
    {
        if self.data.len() - self.position >= n {
            let s = vstd::slice::slice_subrange(
                self.data.as_slice(),
                self.position,
                self.position + n,
            );
            let v = vstd::slice::slice_to_vec(s);
            self.position = self.position + n;
            Ok(v)
        } else {
            Err(Error::InvalidEncoding)
        }
    }

    /// Reads `n` field elements, advancing the position.
    pub fn read_scalar_slice(&mut self, n: usize) -> (r: Result<Vec<u128>, Error>)
        requires
            old(self).wf(),
            n <= usize::MAX / 16,
        ensures
            final(self).wf(),
            final(self)@.data == old(self)@.data,
            r matches Ok(v) ==> (v@.len() == n && final(self)@.position == old(self)@.position + 16
                * n && forall|j: int|
                0 <= j < n ==> v@[j] == vstd::bytes::spec_u128_from_le_bytes(
                    old(self)@.data.subrange(
                        old(self)@.position + 16 * j,
                        old(self)@.position + 16 * j + 16,
                    ),
                )),
            r is Err ==> r == Err::<Vec<u128>, Error>(Error::InvalidEncoding) && final(self)@
                == old(self)@,
            (r is Ok) == (old(self)@.position + 16 * n <= old(self)@.data.len()),
    {
        let ghost dl = old(self)@.data.len() as int;
        let ghost pp = old(self)@.position;
        let ghost nn = n as int;
        if n != 0 && (self.data.len() - self.position) / 16 < n {
            proof {
                assert(pp + 16 * nn > dl) by (nonlinear_arith)
                    requires
                        (dl - pp) / 16 < nn,
                        0 <= pp <= dl,
                ;
            }
            return Err(Error::InvalidEncoding);
        }
        proof {
            if n != 0 {
                assert(pp + 16 * nn <= dl) by (nonlinear_arith)
                    requires
                        (dl - pp) / 16 >= nn,
                        0 <= pp <= dl,
                ;
            }
        }
        let mut out: Vec<u128> = Vec::new();
        let mut i: usize = 0;
        while i < n
            invariant
                i <= n,
                out@.len() == i,
                n <= usize::MAX / 16,
                self@.data == old(self)@.data,
                self@.position == old(self)@.position + 16 * i,
                old(self)@.position + 16 * n <= old(self)@.data.len(),
                0 <= old(self)@.position,
                forall|j: int|
                    0 <= j < i ==> out@[j] == vstd::bytes::spec_u128_from_le_bytes(
                        old(self)@.data.subrange(
                            old(self)@.position + 16 * j,
                            old(self)@.position + 16 * j + 16,
                        ),
                    ),
            decreases n - i,
        {
            let data_len = self.data.len();
            proof {
                assert(16 * i + 16 <= 16 * n) by (nonlinear_arith)
                    requires
                        i < n,
                ;
                assert(self@.position + 16 <= data_len);
            }
            let s = vstd::slice::slice_subrange(
                self.data.as_slice(),
                self.position,
                self.position + 16,
            );
            let v = vstd::bytes::u128_from_le_bytes(s);
            out.push(v);
            self.position = self.position + 16;
            i = i + 1;
        }
        Ok(out)
    }

    /// Whether any bytes remain unread.
    pub fn remaining(&self) -> (r: usize)
        requires
            self.wf(),
        ensures
            r == self@.data.len() - self@.position,
    {
        self.data.len() - self.position
    }

    /// Accepts the stream only when it was consumed exactly; trailing
    /// bytes are a hard failure.
    pub fn finalize(&self, trailing: VerificationError) -> (r: Result<(), Error>)
        requires
            self.wf(),
        ensures
            self@.position == self@.data.len() ==> r is Ok,
            self@.position != self@.data.len() ==> r == Err::<(), Error>(
                Error::Verification(trailing),
            ),
    {
        if self.position == self.data.len() {
            Ok(())
        } else {
            Err(Error::Verification(trailing))
        }
    }
}

} // verus!
