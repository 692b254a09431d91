//! Making a file of random letters and digits.
//!
//! The generator is the caller's: it is seeded where the operating system can
//! be asked, and handed in.

use vstd::prelude::*;
use rand::distributions::Alphanumeric;
use rand::distributions::DistString;
use rand::rngs::SmallRng;
use crate::BLOCK_SIZE;
use vstd::string::StringExecFns;

verus! {

/// Why no data is generated.
#[derive(Debug, Clone, Copy, PartialEq, Eq, Structural)]
pub enum GenError {
    /// The memory allowed is less than one block.
    MaxMemTooSmall,
    /// There is something to make, but no worker, or more workers than bytes
    /// of memory allowed, so that a worker's share is no byte at all.
    NoShare,
}

/// What a generation error says, in words.
pub open spec fn gen_error_text(error: GenError) -> Seq<char> {
    match error {
        GenError::MaxMemTooSmall => "Max allowed memory must not be less than 4096B"@,
        GenError::NoShare => "Max allowed memory must leave a byte for each worker"@,
    }
}

impl GenError {
    /// The error in words.
    pub fn message(&self) -> (text: String)
        ensures
            text@ == gen_error_text(*self),
    {
        match self {
            GenError::MaxMemTooSmall => String::from_str("Max allowed memory must not be less than 4096B"),
            GenError::NoShare => String::from_str("Max allowed memory must leave a byte for each worker"),
        }
    }
}

/// `b` is an ASCII letter or digit.
pub open spec fn is_alphanumeric(b: u8) -> bool {
    ||| 0x30 <= b <= 0x39
    ||| 0x41 <= b <= 0x5a
    ||| 0x61 <= b <= 0x7a
}

/// Every byte of `bytes` is an ASCII letter or digit.
pub open spec fn all_alphanumeric(bytes: Seq<u8>) -> bool {
    forall|i: int| 0 <= i < bytes.len() ==> is_alphanumeric(#[trigger] bytes[i])
}

/// The share of one worker in `max_mem` bytes of memory that `workers`
/// workers divide: no byte where there is no worker.
pub open spec fn share_of(max_mem: usize, workers: usize) -> usize {
    if workers == 0 {
        0
    } else {
        (max_mem as int / workers as int) as usize
    }
}

/// The most bytes that one worker makes at a time, for a file of `size_bytes`
/// bytes, or why nothing can be made. The memory allowed must hold a block;
/// where there is anything to make, the share of a worker must be a byte at
/// least.
pub open spec fn chunk_plan(size_bytes: usize, max_mem: usize, workers: usize) -> Result<usize, GenError> {
    if max_mem < BLOCK_SIZE {
        Err(GenError::MaxMemTooSmall)
    } else if size_bytes > 0 && share_of(max_mem, workers) == 0 {
        Err(GenError::NoShare)
    } else {
        Ok(share_of(max_mem, workers))
    }
}

/// The lengths of the chunks still to be made: the work list of a
/// generation.
pub struct Chunks {
    remaining: usize,
    share: usize,
}

impl Chunks {
    /// How many bytes are still to be made.
    pub closed spec fn remaining(&self) -> nat {
        self.remaining as nat
    }

    /// The most bytes in one chunk.
    pub closed spec fn share(&self) -> nat {
        self.share as nat
    }

    /// While bytes are left to make, a chunk is not empty.
    pub closed spec fn wf(&self) -> bool {
        self.remaining > 0 ==> self.share > 0
    }

    /// The chunks of a file of `size_bytes` bytes.
    pub fn new(size_bytes: usize, max_mem: usize, workers: usize) -> (plan: Result<Chunks, GenError>)
        ensures
            match chunk_plan(size_bytes, max_mem, workers) {
                Err(error) => plan == Err::<Chunks, GenError>(error),
                Ok(share) => {
                    &&& plan matches Ok(chunks)
                    &&& chunks.wf()
                    &&& chunks.remaining() == size_bytes
                    &&& chunks.share() == share
                },
            },
    {
        if max_mem < BLOCK_SIZE {
            return Err(GenError::MaxMemTooSmall);
        }
        let share = if workers == 0 {
            0
        } else {
            max_mem / workers
        };
        if size_bytes > 0 && share == 0 {
            return Err(GenError::NoShare);
        }
        Ok(Chunks { remaining: size_bytes, share })
    }

    /// The length of the next chunk: a worker's share, or what is left where
    /// that is less. `None` when nothing is left.
    pub fn next_len(&mut self) -> (len: Option<usize>)
        requires
            old(self).wf(),
        ensures
            final(self).wf(),
            final(self).share() == old(self).share(),
            old(self).remaining() == 0 ==> len is None && final(self).remaining() == 0,
            old(self).remaining() > 0 ==> {
                &&& len matches Some(n)
                &&& n == (if old(self).remaining() < old(self).share() {
                    old(self).remaining()
                } else {
                    old(self).share()
                })
                &&& n > 0
                &&& final(self).remaining() == old(self).remaining() - n
            },
    {
        if self.remaining == 0 {
            return None;
        }
        let len = if self.remaining < self.share {
            self.remaining
        } else {
            self.share
        };
        self.remaining = self.remaining - len;
        Some(len)
    }
}

/// rand's `SmallRng`, a small fast generator. It is carried from the caller
/// to where it is drawn from; nothing is known of what it holds.
#[verifier::external_type_specification]
#[verifier::external_body]
pub struct ExSmallRng(SmallRng);

/// Calls rand's `Alphanumeric.sample_string` and hands out the bytes of the
/// string. rand appends exactly `len` bytes to an empty string and draws each
/// from the letters `A` to `Z` and `a` to `z` and the digits.
#[verifier::external_body]
fn sample_alphanumeric(rng: &mut SmallRng, len: usize) -> (bytes: Vec<u8>)
    ensures
        bytes@.len() == len,
        all_alphanumeric(bytes@),
{
    Alphanumeric.sample_string(rng, len).into_bytes()
}

/// One chunk: `len` random letters and digits, drawn from `rng`.
pub fn generate(rng: &mut SmallRng, len: usize) -> (bytes: Vec<u8>)
    ensures
        bytes@.len() == len,
        all_alphanumeric(bytes@),
{
    sample_alphanumeric(rng, len)
}

/// Puts a chunk behind the data made so far.
pub fn append_chunk(data: &mut Vec<u8>, chunk: &[u8])
    ensures
        final(data)@ == old(data)@ + chunk@,
        all_alphanumeric(old(data)@) && all_alphanumeric(chunk@) ==> all_alphanumeric(final(data)@),
{
    let ghost before = data@;
    data.extend_from_slice(chunk);
    assert(data@ =~= before + chunk@);
}

/// `size_bytes` random letters and digits drawn from `rng`, made chunk by
/// chunk, no chunk longer than the share of one of `workers` workers in
/// `max_mem` bytes.
pub fn generate_data(rng: &mut SmallRng, size_bytes: usize, max_mem: usize, workers: usize) -> (made: Result<
    Vec<u8>,
    GenError,
>)
    ensures
        match chunk_plan(size_bytes, max_mem, workers) {
            Err(error) => made == Err::<Vec<u8>, GenError>(error),
            Ok(_) => made matches Ok(data) && data@.len() == size_bytes && all_alphanumeric(data@),
        },
{
    let mut chunks = match Chunks::new(size_bytes, max_mem, workers) {
        Err(error) => {
            return Err(error);
        },
        Ok(chunks) => chunks,
    };
    let mut data: Vec<u8> = Vec::new();
    loop
        invariant
            chunks.wf(),
            chunk_plan(size_bytes, max_mem, workers) is Ok,
            data@.len() + chunks.remaining() == size_bytes,
            all_alphanumeric(data@),
        decreases chunks.remaining(),
    {
        match chunks.next_len() {
            None => {
                return Ok(data);
            },
            Some(len) => {
                let chunk = generate(rng, len);
                append_chunk(&mut data, chunk.as_slice());
            },
        }
    }
}

} // verus!
