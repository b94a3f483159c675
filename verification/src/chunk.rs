//! Chunks: where they lie in a container, and the lines that each one holds.

use fldtools::ChunkList;
use vstd::prelude::*;
use vstd::slice::slice_subrange;

use crate::bytes::be_word;
use crate::dialogue::{views, Dialogue, DialogueView};
use crate::error::DecodeError;
use crate::map_table::{map_table_of, MapTable};
use crate::offset_table::{lines_of, words_of, DialogueOffsetTable};
use crate::text::decodable_len;

verus! {

/// The first byte of a header entry that is padding, not a descriptor.
pub const PADDING: u8 = 0xFF;

/// Where one chunk lies in the container: its first byte and its length.
#[derive(Clone, Copy, Debug, PartialEq, Eq, Structural)]
pub struct ChunkDescriptor {
    /// The offset of the chunk from the beginning of the file.
    pub start: u32,
    /// The length of the chunk in bytes, without padding.
    pub length: u32,
}

impl ChunkDescriptor {
    /// A descriptor names a chunk only if neither field is zero.
    pub open spec fn valid(&self) -> bool {
        self.start != 0 && self.length != 0
    }

    /// Whether the descriptor names a chunk. One that does not has to be
    /// left out before anything is parsed.
    pub fn is_valid(&self) -> (ok: bool)
        ensures
            ok == self.valid(),
    {
        self.start != 0 && self.length != 0
    }
}

/// The descriptor that the first eight bytes of `entry` spell.
pub open spec fn descriptor_of(entry: Seq<u8>) -> ChunkDescriptor {
    ChunkDescriptor { start: be_word(entry, 0), length: be_word(entry, 4) }
}

/// The descriptors of a container's header. The header is cut into entries
/// of eight bytes, the last one shorter if the bytes run out. An entry that
/// starts with the padding byte is passed over; every other entry is two
/// big-endian words. There is no list if such an entry is cut short.
pub open spec fn segmented(header: Seq<u8>) -> Option<Seq<ChunkDescriptor>>
    decreases header.len(),
{
    if header.len() == 0 {
        Some(Seq::empty())
    } else if header[0] == PADDING {
        if header.len() <= 8 {
            Some(Seq::empty())
        } else {
            segmented(header.skip(8))
        }
    } else if header.len() < 8 {
        None
    } else {
        match segmented(header.skip(8)) {
            Some(rest) => Some(seq![descriptor_of(header)] + rest),
            None => None,
        }
    }
}

/// `fldtools::ChunkList::parse`, with each `fldtools::Chunk` of the list
/// copied field by field into a descriptor. The function walks the header in
/// steps of eight bytes, drops the entries whose first byte is `0xFF`, and
/// reads the others as two big-endian words with `byteorder`; the read, and
/// with it the whole call, fails on an entry of fewer than eight bytes. The
/// contract states this through `segmented`.
#[verifier::external_body]
fn parse_chunk_list(header: &[u8]) -> (chunks: Option<Vec<ChunkDescriptor>>)
    ensures
        match chunks {
            Some(list) => segmented(header@) == Some(list@),
            None => segmented(header@) is None,
        },
{
    match ChunkList::parse(header) {
        Ok(list) => Some(
            list.chunks.iter().map(|c| ChunkDescriptor { start: c.start, length: c.length }).collect(),
        ),
        Err(_) => None,
    }
}

/// Lists the chunks that a container's header declares, in header order.
///
/// Fails with `TruncatedInput` exactly when the header ends in the middle of
/// a descriptor.
pub fn segment_chunks(header: &[u8]) -> (chunks: Result<Vec<ChunkDescriptor>, DecodeError>)
    ensures
        match chunks {
            Ok(list) => segmented(header@) == Some(list@),
            Err(e) => segmented(header@) is None && e == DecodeError::TruncatedInput,
        },
{
    match parse_chunk_list(header) {
        Some(list) => Ok(list),
        None => Err(DecodeError::TruncatedInput),
    }
}

/// The lines of one chunk, numbered `id`.
///
/// The map table says where the offset table lies and how long it is. The
/// chunk is truncated if it ends before the offset table does.
pub open spec fn chunk_lines(chunk: Seq<u8>, id: nat) -> Result<Seq<DialogueView>, DecodeError> {
    match map_table_of(chunk) {
        Err(e) => Err(e),
        Ok(table) => {
            let from = table.dialogue_offset_table_offset as int;
            let count = table.number_of_dialogue_entries as nat;
            if from + 4 * count > chunk.len() {
                Err(DecodeError::TruncatedInput)
            } else {
                lines_of(chunk, words_of(chunk.subrange(from, from + 4 * count), count), id)
            }
        },
    }
}

/// Decodes every line of one chunk.
///
/// Any failure is final for the chunk: it yields no records then, not some
/// of them. The chunk has to be short enough for the decoder; `can_decode`
/// tells.
pub fn decode_chunk(data: &[u8], chunk: usize) -> (lines: Result<Vec<Dialogue>, DecodeError>)
    requires
        decodable_len(2 * data@.len()),
    ensures
        match lines {
            Ok(found) => chunk_lines(data@, chunk as nat) == Ok::<Seq<DialogueView>, DecodeError>(
                views(found@),
            ),
            Err(e) => chunk_lines(data@, chunk as nat) == Err::<Seq<DialogueView>, DecodeError>(e),
        },
{
    let table = match MapTable::parse(data) {
        Ok(table) => table,
        Err(e) => {
            return Err(e);
        },
    };
    let from: usize = table.dialogue_offset_table_offset as usize;
    let count: u32 = table.number_of_dialogue_entries;
    if from > data.len() || (data.len() - from) / 4 < count as usize {
        return Err(DecodeError::TruncatedInput);
    }
    let until: usize = from + 4 * (count as usize);
    let offsets = match DialogueOffsetTable::parse(slice_subrange(data, from, until), count) {
        Ok(offsets) => offsets,
        Err(e) => {
            return Err(e);
        },
    };
    offsets.extract_lines(data, chunk)
}

/// The lines that one descriptor of a container contributes: none if the
/// descriptor names no chunk, and otherwise the lines of the bytes it names.
/// The container is truncated if it ends before the chunk does.
pub open spec fn descriptor_lines(file: Seq<u8>, chunk: ChunkDescriptor, id: nat) -> Result<
    Seq<DialogueView>,
    DecodeError,
> {
    if !chunk.valid() {
        Ok(Seq::empty())
    } else if chunk.start + chunk.length > file.len() {
        Err(DecodeError::TruncatedInput)
    } else {
        chunk_lines(file.subrange(chunk.start as int, chunk.start + chunk.length), id)
    }
}

/// The lines of the first `upto` chunks of a container, in order. Each chunk
/// is numbered by its place in the list. The first failure is the result.
pub open spec fn container_lines(file: Seq<u8>, chunks: Seq<ChunkDescriptor>, upto: nat) -> Result<
    Seq<DialogueView>,
    DecodeError,
>
    decreases upto,
{
    if upto == 0 {
        Ok(Seq::empty())
    } else {
        match container_lines(file, chunks, (upto - 1) as nat) {
            Err(e) => Err(e),
            Ok(before) => match descriptor_lines(file, chunks[upto - 1], (upto - 1) as nat) {
                Err(e) => Err(e),
                Ok(more) => Ok(before + more),
            },
        }
    }
}

/// Decodes the lines of every chunk of a container, in the order of the
/// list. Descriptors that name no chunk are passed over. The container has
/// to be short enough for the decoder; `can_decode` tells.
pub fn decode_chunks(file: &[u8], chunks: &Vec<ChunkDescriptor>) -> (lines: Result<
    Vec<Dialogue>,
    DecodeError,
>)
    requires
        decodable_len(2 * file@.len()),
    ensures
        match lines {
            Ok(found) => container_lines(file@, chunks@, chunks@.len()) == Ok::<
                Seq<DialogueView>,
                DecodeError,
            >(views(found@)),
            Err(e) => container_lines(file@, chunks@, chunks@.len()) == Err::<
                Seq<DialogueView>,
                DecodeError,
            >(e),
        },
{
    let n: usize = chunks.len();
    let mut found: Vec<Dialogue> = Vec::new();
    let mut i: usize = 0;
    assert(views(found@) =~= Seq::<DialogueView>::empty());
    while i < n
        invariant
            n == chunks@.len(),
            i <= n,
            decodable_len(2 * file@.len()),
            container_lines(file@, chunks@, i as nat) == Ok::<Seq<DialogueView>, DecodeError>(
                views(found@),
            ),
        decreases n - i,
    {
        let chunk: ChunkDescriptor = chunks[i];
        if chunk.is_valid() {
            let start: usize = chunk.start as usize;
            let length: usize = chunk.length as usize;
            if start > file.len() || file.len() - start < length {
                proof {
                    lemma_failure_is_final(file@, chunks@, (i + 1) as nat, n as nat);
                }
                return Err(DecodeError::TruncatedInput);
            }
            let bytes = slice_subrange(file, start, start + length);
            match decode_chunk(bytes, i) {
                Ok(mut more) => {
                    let ghost before = found@;
                    let ghost added = more@;
                    found.append(&mut more);
                    assert(views(found@) =~= views(before) + views(added));
                },
                Err(e) => {
                    proof {
                        lemma_failure_is_final(file@, chunks@, (i + 1) as nat, n as nat);
                    }
                    return Err(e);
                },
            }
        } else {
            assert(views(found@) + Seq::<DialogueView>::empty() =~= views(found@));
        }
        i += 1;
    }
    Ok(found)
}

/// A descriptor whose start or length is zero contributes no line and is
/// never parsed, whatever the container holds.
pub proof fn lemma_invalid_descriptor_is_skipped(file: Seq<u8>, chunk: ChunkDescriptor, id: nat)
    requires
        chunk.start == 0 || chunk.length == 0,
    ensures
        descriptor_lines(file, chunk, id) == Ok::<Seq<DialogueView>, DecodeError>(Seq::empty()),
{
}

/// Of two descriptors, one of them naming no chunk, only the other one is
/// decoded: the result is that of the valid chunk alone, under its own
/// number.
pub proof fn lemma_only_valid_chunks_are_decoded(
    file: Seq<u8>,
    first: ChunkDescriptor,
    second: ChunkDescriptor,
)
    ensures
        !first.valid() ==> container_lines(file, seq![first, second], 2) == descriptor_lines(
            file,
            second,
            1,
        ),
        !second.valid() ==> container_lines(file, seq![first, second], 2) == descriptor_lines(
            file,
            first,
            0,
        ),
{
    let chunks = seq![first, second];
    reveal_with_fuel(container_lines, 3);
    assert(chunks[0] == first);
    assert(chunks[1] == second);
    if !first.valid() {
        if descriptor_lines(file, second, 1) is Ok {
            assert(Seq::<DialogueView>::empty() + descriptor_lines(file, second, 1)->Ok_0
                =~= descriptor_lines(file, second, 1)->Ok_0);
        }
    }
    if !second.valid() {
        if descriptor_lines(file, first, 0) is Ok {
            let lines = descriptor_lines(file, first, 0)->Ok_0;
            assert(Seq::<DialogueView>::empty() + lines =~= lines);
            assert(lines + Seq::<DialogueView>::empty() =~= lines);
        }
    }
}

/// Once a chunk has failed, the chunks after it do not change the result.
pub proof fn lemma_failure_is_final(
    file: Seq<u8>,
    chunks: Seq<ChunkDescriptor>,
    failed: nat,
    upto: nat,
)
    requires
        failed <= upto,
        container_lines(file, chunks, failed) is Err,
    ensures
        container_lines(file, chunks, upto) == container_lines(file, chunks, failed),
    decreases upto,
{
    if failed < upto {
        lemma_failure_is_final(file, chunks, failed, (upto - 1) as nat);
    }
}

} // verus!
