//! The map table at the head of a chunk.

use vstd::prelude::*;
use vstd::slice::{slice_subrange, slice_to_vec};

use crate::bytes::{be_bytes, be_word, lemma_word_round_trip, read_word};
use crate::error::DecodeError;

verus! {

/// The bytes in front of the opaque block: two words.
pub const FIXED_PREFIX: u32 = 8;

/// The header of a chunk. It says where the dialogue offset table lies and
/// how many entries it has. All its numbers are big-endian.
#[derive(Clone, Debug)]
pub struct MapTable {
    /// The leading word; its meaning is not known.
    pub unknown1: u32,
    /// Where, within the chunk, the entry count is stored. Everything
    /// between the first two words and that place is the opaque block.
    pub dialogue_header_offset: u32,
    /// The opaque block, kept as it was read.
    pub unknown2: Vec<u8>,
    /// How many lines of dialogue the chunk holds.
    pub number_of_dialogue_entries: u32,
    /// Where, within the chunk, the table of line offsets begins.
    pub dialogue_offset_table_offset: u32,
}

/// What a [`MapTable`] holds, with the opaque block as a sequence.
pub struct MapTableView {
    pub unknown1: u32,
    pub dialogue_header_offset: u32,
    pub unknown2: Seq<u8>,
    pub number_of_dialogue_entries: u32,
    pub dialogue_offset_table_offset: u32,
}

impl View for MapTable {
    type V = MapTableView;

    open spec fn view(&self) -> MapTableView {
        MapTableView {
            unknown1: self.unknown1,
            dialogue_header_offset: self.dialogue_header_offset,
            unknown2: self.unknown2@,
            number_of_dialogue_entries: self.number_of_dialogue_entries,
            dialogue_offset_table_offset: self.dialogue_offset_table_offset,
        }
    }
}

/// What parsing makes of the bytes of a chunk.
///
/// The fields are read in order: the leading word, the header offset, an
/// opaque block that fills the room up to the header offset, the entry count
/// and the table offset. The input is truncated when any of these reads
/// runs out of bytes, and the header is malformed when the header offset
/// lies inside the first two words.
pub open spec fn map_table_of(data: Seq<u8>) -> Result<MapTableView, DecodeError> {
    if data.len() < 8 {
        Err(DecodeError::TruncatedInput)
    } else if be_word(data, 4) < FIXED_PREFIX {
        Err(DecodeError::MalformedHeader)
    } else if data.len() < be_word(data, 4) + 8 {
        Err(DecodeError::TruncatedInput)
    } else {
        let at = be_word(data, 4) as int;
        Ok(
            MapTableView {
                unknown1: be_word(data, 0),
                dialogue_header_offset: be_word(data, 4),
                unknown2: data.subrange(8, at),
                number_of_dialogue_entries: be_word(data, at),
                dialogue_offset_table_offset: be_word(data, at + 4),
            },
        )
    }
}

impl MapTableView {
    /// A header is well formed when its opaque block fills exactly the room
    /// between the first two words and the header offset.
    pub open spec fn well_formed(self) -> bool {
        self.dialogue_header_offset >= FIXED_PREFIX && self.unknown2.len()
            == self.dialogue_header_offset - FIXED_PREFIX
    }

    /// The bytes of the header: its five fields in order.
    pub open spec fn encoded(self) -> Seq<u8> {
        be_bytes(self.unknown1) + be_bytes(self.dialogue_header_offset) + self.unknown2 + be_bytes(
            self.number_of_dialogue_entries,
        ) + be_bytes(self.dialogue_offset_table_offset)
    }
}

/// Parsing recovers the five fields of every well-formed header, whatever
/// follows the header in the chunk.
pub proof fn lemma_parse_recovers_fields(table: MapTableView, rest: Seq<u8>)
    requires
        table.well_formed(),
    ensures
        map_table_of(table.encoded() + rest) == Ok::<MapTableView, DecodeError>(table),
{
    let data = table.encoded() + rest;
    let first = be_bytes(table.unknown1);
    let second = be_bytes(table.dialogue_header_offset);
    let third = be_bytes(table.number_of_dialogue_entries);
    let fourth = be_bytes(table.dialogue_offset_table_offset);
    let at = table.dialogue_header_offset as int;
    assert(data =~= Seq::<u8>::empty() + first + (second + table.unknown2 + third + fourth + rest));
    lemma_word_round_trip(
        Seq::empty(),
        table.unknown1,
        second + table.unknown2 + third + fourth + rest,
    );
    assert(data =~= first + second + (table.unknown2 + third + fourth + rest));
    lemma_word_round_trip(
        first,
        table.dialogue_header_offset,
        table.unknown2 + third + fourth + rest,
    );
    assert(data =~= (first + second + table.unknown2) + third + (fourth + rest));
    lemma_word_round_trip(
        first + second + table.unknown2,
        table.number_of_dialogue_entries,
        fourth + rest,
    );
    assert(data =~= (first + second + table.unknown2 + third) + fourth + rest);
    lemma_word_round_trip(
        first + second + table.unknown2 + third,
        table.dialogue_offset_table_offset,
        rest,
    );
    assert(data.subrange(8, at) =~= table.unknown2);
}

/// A header offset below eight is a malformed header, however long the
/// chunk is, and the size of the opaque block is never computed from it.
pub proof fn lemma_small_header_offset_is_malformed(data: Seq<u8>)
    requires
        data.len() >= 8,
        be_word(data, 4) < FIXED_PREFIX,
    ensures
        map_table_of(data) == Err::<MapTableView, DecodeError>(DecodeError::MalformedHeader),
{
}

/// A parsed header is well formed, its opaque block included.
pub proof fn lemma_parsed_is_well_formed(data: Seq<u8>)
    requires
        map_table_of(data) is Ok,
    ensures
        map_table_of(data)->Ok_0.well_formed(),
        map_table_of(data)->Ok_0.encoded().len() <= data.len(),
{
}

impl MapTable {
    /// Parses the map table that opens a chunk.
    ///
    /// Fails with `TruncatedInput` when the chunk ends before the last field
    /// and with `MalformedHeader` when the header offset is below eight. No
    /// input makes the size of the opaque block wrap around.
    pub fn parse(data: &[u8]) -> (table: Result<MapTable, DecodeError>)
        ensures
            match table {
                Ok(t) => map_table_of(data@) == Ok::<MapTableView, DecodeError>(t@),
                Err(e) => map_table_of(data@) == Err::<MapTableView, DecodeError>(e),
            },
    {
        let unknown1: u32 = match read_word(data, 0) {
            Ok(word) => word,
            Err(e) => {
                return Err(e);
            },
        };
        let dialogue_header_offset: u32 = match read_word(data, 4) {
            Ok(word) => word,
            Err(e) => {
                return Err(e);
            },
        };
        if dialogue_header_offset < FIXED_PREFIX {
            return Err(DecodeError::MalformedHeader);
        }
        let at: usize = dialogue_header_offset as usize;
        if data.len() < at {
            return Err(DecodeError::TruncatedInput);
        }
        let unknown2: Vec<u8> = slice_to_vec(slice_subrange(data, 8, at));
        let number_of_dialogue_entries: u32 = match read_word(data, at) {
            Ok(word) => word,
            Err(e) => {
                return Err(e);
            },
        };
        let dialogue_offset_table_offset: u32 = match read_word(data, at + 4) {
            Ok(word) => word,
            Err(e) => {
                return Err(e);
            },
        };
        Ok(
            MapTable {
                unknown1,
                dialogue_header_offset,
                unknown2,
                number_of_dialogue_entries,
                dialogue_offset_table_offset,
            },
        )
    }
}

} // verus!
