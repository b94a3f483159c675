//! Big-endian words in a byte buffer.

use byteorder::{BigEndian, ReadBytesExt};
use vstd::prelude::*;
use vstd::slice::slice_subrange;

use crate::error::DecodeError;

verus! {

/// The unsigned 32-bit value that the four bytes of `data` starting at `at`
/// spell in big-endian order.
pub open spec fn be_word(data: Seq<u8>, at: int) -> u32
    recommends
        0 <= at,
        at + 4 <= data.len(),
{
    (data[at] as int * 0x100_0000 + data[at + 1] as int * 0x1_0000 + data[at + 2] as int * 0x100
        + data[at + 3] as int) as u32
}

/// Whether `data` holds a whole 32-bit word at `at`.
pub open spec fn has_word(data: Seq<u8>, at: int) -> bool {
    0 <= at && at + 4 <= data.len()
}

/// `byteorder::ReadBytesExt::read_u32::<BigEndian>` with the slice `buf` as
/// the reader. The method pulls four bytes with `read_exact`, which fails on
/// a slice shorter than that, and hands them to `u32::from_be_bytes`. The
/// contract claims exactly this: a value comes back iff `buf` holds at least
/// four bytes, and it is the big-endian reading of the first four.
#[verifier::external_body]
fn read_u32_be(buf: &[u8]) -> (word: Option<u32>)
    ensures
        word is Some <==> buf@.len() >= 4,
        word is Some ==> word->0 == be_word(buf@, 0),
{
    let mut reader = buf;
    reader.read_u32::<BigEndian>().ok()
}

/// Reads the big-endian word at position `at` of `data`.
///
/// Fails with `TruncatedInput` exactly when fewer than four bytes remain
/// from `at` on.
pub fn read_word(data: &[u8], at: usize) -> (word: Result<u32, DecodeError>)
    requires
        at <= data@.len(),
    ensures
        word is Ok <==> has_word(data@, at as int),
        word is Ok ==> word->Ok_0 == be_word(data@, at as int),
        word is Err ==> word->Err_0 == DecodeError::TruncatedInput,
{
    let rest = slice_subrange(data, at, data.len());
    match read_u32_be(rest) {
        Some(value) => Ok(value),
        None => Err(DecodeError::TruncatedInput),
    }
}

/// The four bytes that spell `word` in big-endian order.
pub open spec fn be_bytes(word: u32) -> Seq<u8> {
    seq![
        (word / 0x100_0000) as u8,
        (word / 0x1_0000 % 0x100) as u8,
        (word / 0x100 % 0x100) as u8,
        (word % 0x100) as u8,
    ]
}

/// A word written in big-endian order at position `at` is read back from
/// there unchanged, whatever stands before and after it.
pub proof fn lemma_word_round_trip(before: Seq<u8>, word: u32, after: Seq<u8>)
    ensures
        has_word(before + be_bytes(word) + after, before.len() as int),
        be_word(before + be_bytes(word) + after, before.len() as int) == word,
{
    let data = before + be_bytes(word) + after;
    let at = before.len() as int;
    assert(data[at] == be_bytes(word)[0]);
    assert(data[at + 1] == be_bytes(word)[1]);
    assert(data[at + 2] == be_bytes(word)[2]);
    assert(data[at + 3] == be_bytes(word)[3]);
}

} // verus!
