//! The dialogue offset table of a chunk, and the lines it points at.

use vstd::prelude::*;
use vstd::slice::slice_subrange;

use crate::bytes::{be_bytes, be_word, lemma_word_round_trip, read_word};
use crate::dialogue::{record_of, views, Dialogue, DialogueView};
use crate::error::DecodeError;
use crate::render::{chunk_label, offset_label};
use crate::text::{decodable_len, decode_line};

verus! {

/// The offsets at which the lines of one chunk start, in table order. Each
/// offset counts from the start of the chunk.
#[derive(Clone, Debug)]
pub struct DialogueOffsetTable {
    pub offsets: Vec<u32>,
}

impl View for DialogueOffsetTable {
    type V = Seq<u32>;

    open spec fn view(&self) -> Seq<u32> {
        self.offsets@
    }
}

/// The offsets that a table of `count` entries spells: its big-endian words
/// in file order.
pub open spec fn words_of(table: Seq<u8>, count: nat) -> Seq<u32> {
    Seq::new(count, |i: int| be_word(table, 4 * i))
}

/// What parsing makes of a table declared to hold `count` entries: its words
/// when it is exactly `4 * count` bytes long, and a size mismatch otherwise.
pub open spec fn offsets_of(table: Seq<u8>, count: u32) -> Result<Seq<u32>, DecodeError> {
    if table.len() == 4 * count {
        Ok(words_of(table, count as nat))
    } else {
        Err(DecodeError::SizeMismatch)
    }
}

/// The bytes of a table that holds `offsets`: its words in order.
pub open spec fn table_bytes(offsets: Seq<u32>) -> Seq<u8>
    decreases offsets.len(),
{
    if offsets.len() == 0 {
        Seq::empty()
    } else {
        table_bytes(offsets.drop_last()) + be_bytes(offsets.last())
    }
}

/// A table of `n` offsets is `4 * n` bytes long.
pub proof fn lemma_table_bytes_len(offsets: Seq<u32>)
    ensures
        table_bytes(offsets).len() == 4 * offsets.len(),
    decreases offsets.len(),
{
    if offsets.len() > 0 {
        lemma_table_bytes_len(offsets.drop_last());
    }
}

/// A table parses to exactly as many offsets as its count declares, each
/// the word at its place in the file, and a slice of any other length is a
/// size mismatch.
pub proof fn lemma_offsets_in_file_order(table: Seq<u8>, count: u32)
    ensures
        table.len() == 4 * count ==> offsets_of(table, count) is Ok,
        table.len() != 4 * count ==> offsets_of(table, count) == Err::<Seq<u32>, DecodeError>(
            DecodeError::SizeMismatch,
        ),
        offsets_of(table, count) is Ok ==> offsets_of(table, count)->Ok_0.len() == count,
        forall|i: int|
            offsets_of(table, count) is Ok && 0 <= i < count ==> #[trigger] offsets_of(
                table,
                count,
            )->Ok_0[i] == be_word(table, 4 * i),
{
}

/// Parsing the bytes of a table gives back its offsets, in order.
pub proof fn lemma_parse_recovers_offsets(offsets: Seq<u32>)
    requires
        offsets.len() <= u32::MAX,
    ensures
        offsets_of(table_bytes(offsets), offsets.len() as u32) == Ok::<Seq<u32>, DecodeError>(
            offsets,
        ),
    decreases offsets.len(),
{
    let n = offsets.len();
    lemma_table_bytes_len(offsets);
    if n > 0 {
        let front = offsets.drop_last();
        lemma_parse_recovers_offsets(front);
        lemma_table_bytes_len(front);
        let bytes = table_bytes(offsets);
        assert(bytes =~= table_bytes(front) + be_bytes(offsets.last()) + Seq::<u8>::empty());
        lemma_word_round_trip(table_bytes(front), offsets.last(), Seq::empty());
        assert forall|i: int| 0 <= i < n implies be_word(bytes, 4 * i) == offsets[i] by {
            if i < n - 1 {
                assert(words_of(table_bytes(front), (n - 1) as nat)[i] == front[i]);
                assert(bytes[4 * i] == table_bytes(front)[4 * i]);
                assert(bytes[4 * i + 1] == table_bytes(front)[4 * i + 1]);
                assert(bytes[4 * i + 2] == table_bytes(front)[4 * i + 2]);
                assert(bytes[4 * i + 3] == table_bytes(front)[4 * i + 3]);
            }
        }
    }
    assert(words_of(table_bytes(offsets), n) =~= offsets);
}

/// Where the line at index `i` ends: at the next offset of the table, or at
/// the end of the chunk for the last line.
pub open spec fn span_end(offsets: Seq<u32>, i: int, chunk_len: nat) -> int {
    if i + 1 < offsets.len() {
        offsets[i + 1] as int
    } else {
        chunk_len as int
    }
}

/// Whether every offset delimits a span inside a chunk of `chunk_len` bytes:
/// no line starts after its end, and no line ends past the chunk.
pub open spec fn spans_fit(offsets: Seq<u32>, chunk_len: nat) -> bool {
    forall|i: int|
        0 <= i < offsets.len() ==> offsets[i] <= #[trigger] span_end(offsets, i, chunk_len)
            <= chunk_len
}

/// The bytes of the line at index `i`.
pub open spec fn span(chunk: Seq<u8>, offsets: Seq<u32>, i: int) -> Seq<u8> {
    chunk.subrange(offsets[i] as int, span_end(offsets, i, chunk.len()))
}

/// The records of a chunk, one per offset and in table order; a malformed
/// header where the offsets do not delimit spans inside the chunk.
pub open spec fn lines_of(chunk: Seq<u8>, offsets: Seq<u32>, id: nat) -> Result<
    Seq<DialogueView>,
    DecodeError,
> {
    if spans_fit(offsets, chunk.len()) {
        Ok(Seq::new(offsets.len(), |i: int| record_of(id, offsets[i] as nat, span(chunk, offsets, i))))
    } else {
        Err(DecodeError::MalformedHeader)
    }
}

/// Extraction yields one record per offset, in table order, and skips none:
/// the record at each index is the one read at the offset of that index.
pub proof fn lemma_one_record_per_offset(chunk: Seq<u8>, offsets: Seq<u32>, id: nat)
    requires
        spans_fit(offsets, chunk.len()),
    ensures
        lines_of(chunk, offsets, id) is Ok,
        lines_of(chunk, offsets, id)->Ok_0.len() == offsets.len(),
        forall|i: int|
            0 <= i < offsets.len() ==> (#[trigger] lines_of(chunk, offsets, id)->Ok_0[i])
                == record_of(id, offsets[i] as nat, span(chunk, offsets, i)),
{
}

/// The spans of a table fit a chunk exactly when its offsets never go down
/// and the last of them lies in the chunk.
pub proof fn lemma_spans_fit_iff_ordered(offsets: Seq<u32>, chunk_len: nat)
    ensures
        spans_fit(offsets, chunk_len) <==> {
            &&& forall|i: int| 0 <= i < offsets.len() - 1 ==> offsets[i] <= #[trigger] offsets[i + 1]
            &&& offsets.len() > 0 ==> offsets.last() <= chunk_len
        },
{
    let n = offsets.len() as int;
    if spans_fit(offsets, chunk_len) {
        assert forall|i: int| 0 <= i < n - 1 implies offsets[i] <= #[trigger] offsets[i + 1] by {
            assert(offsets[i] <= span_end(offsets, i, chunk_len));
        }
        if n > 0 {
            assert(offsets[n - 1] <= span_end(offsets, n - 1, chunk_len));
        }
    }
    if (forall|i: int| 0 <= i < n - 1 ==> offsets[i] <= #[trigger] offsets[i + 1]) && (n > 0
        ==> offsets.last() <= chunk_len) {
        lemma_ordered_below_last(offsets, chunk_len);
    }
}

proof fn lemma_ordered_below_last(offsets: Seq<u32>, chunk_len: nat)
    requires
        forall|i: int| 0 <= i < offsets.len() - 1 ==> offsets[i] <= #[trigger] offsets[i + 1],
        offsets.len() > 0 ==> offsets.last() <= chunk_len,
    ensures
        spans_fit(offsets, chunk_len),
{
    let n = offsets.len() as int;
    assert forall|i: int| 0 <= i < n implies offsets[i] <= #[trigger] span_end(
        offsets,
        i,
        chunk_len,
    ) <= chunk_len by {
        lemma_ordered_reaches(offsets, i, n - 1);
        if i + 1 < n {
            lemma_ordered_reaches(offsets, i + 1, n - 1);
        }
    }
}

proof fn lemma_ordered_reaches(offsets: Seq<u32>, i: int, j: int)
    requires
        forall|k: int| 0 <= k < offsets.len() - 1 ==> offsets[k] <= #[trigger] offsets[k + 1],
        0 <= i <= j < offsets.len(),
    ensures
        offsets[i] <= offsets[j],
    decreases j - i,
{
    if i < j {
        lemma_ordered_reaches(offsets, i, j - 1);
        assert(offsets[j - 1] <= offsets[j - 1 + 1]);
    }
}

impl DialogueOffsetTable {
    /// Parses a table declared to hold `length` offsets.
    ///
    /// The slice has to be exactly four bytes per entry; any other length is
    /// a `SizeMismatch`.
    pub fn parse(data: &[u8], length: u32) -> (table: Result<DialogueOffsetTable, DecodeError>)
        ensures
            match table {
                Ok(t) => offsets_of(data@, length) == Ok::<Seq<u32>, DecodeError>(t@),
                Err(e) => offsets_of(data@, length) == Err::<Seq<u32>, DecodeError>(e),
            },
    {
        if data.len() % 4 != 0 || data.len() / 4 != length as usize {
            return Err(DecodeError::SizeMismatch);
        }
        let mut offsets: Vec<u32> = Vec::new();
        let mut i: usize = 0;
        while i < length as usize
            invariant
                data@.len() == 4 * length,
                data@.len() <= usize::MAX,
                i <= length,
                offsets@ == words_of(data@, i as nat),
            decreases length - i,
        {
            match read_word(data, 4 * i) {
                Ok(word) => {
                    offsets.push(word);
                },
                Err(e) => {
                    return Err(e);
                },
            }
            i += 1;
            assert(offsets@ =~= words_of(data@, i as nat));
        }
        Ok(DialogueOffsetTable { offsets })
    }

    /// Whether every offset of the table delimits a span inside a chunk of
    /// `chunk_len` bytes.
    pub fn fits(&self, chunk_len: usize) -> (fit: bool)
        ensures
            fit == spans_fit(self@, chunk_len as nat),
    {
        let n: usize = self.offsets.len();
        let mut i: usize = 0;
        while i < n
            invariant
                n == self@.len(),
                i <= n,
                forall|k: int|
                    0 <= k < i ==> self@[k] <= #[trigger] span_end(self@, k, chunk_len as nat)
                        <= chunk_len,
            decreases n - i,
        {
            let start: usize = self.offsets[i] as usize;
            let end: usize = if i + 1 < n {
                self.offsets[i + 1] as usize
            } else {
                chunk_len
            };
            if start > end || end > chunk_len {
                assert(end == span_end(self@, i as int, chunk_len as nat));
                return false;
            }
            i += 1;
        }
        true
    }

    /// Extracts the lines of a chunk, one record per offset and in table
    /// order.
    ///
    /// Each line runs from its offset to the next offset of the table, the
    /// last one to the end of the chunk. Offsets that do not delimit spans
    /// inside the chunk are a `MalformedHeader`, and then no record is
    /// produced at all. The chunk has to be short enough for the decoder;
    /// `can_decode` tells.
    pub fn extract_lines(self, data: &[u8], chunk: usize) -> (lines: Result<
        Vec<Dialogue>,
        DecodeError,
    >)
        requires
            decodable_len(2 * data@.len()),
        ensures
            match lines {
                Ok(found) => lines_of(data@, self@, chunk as nat) == Ok::<
                    Seq<DialogueView>,
                    DecodeError,
                >(views(found@)),
                Err(e) => lines_of(data@, self@, chunk as nat) == Err::<
                    Seq<DialogueView>,
                    DecodeError,
                >(e),
            },
    {
        if !self.fits(data.len()) {
            return Err(DecodeError::MalformedHeader);
        }
        let n: usize = self.offsets.len();
        let mut found: Vec<Dialogue> = Vec::new();
        let mut i: usize = 0;
        while i < n
            invariant
                n == self@.len(),
                i <= n,
                spans_fit(self@, data@.len()),
                decodable_len(2 * data@.len()),
                found@.len() == i,
                forall|k: int|
                    0 <= k < i ==> (#[trigger] found@[k])@ == record_of(
                        chunk as nat,
                        self@[k] as nat,
                        span(data@, self@, k),
                    ),
            decreases n - i,
        {
            let offset: u32 = self.offsets[i];
            let start: usize = offset as usize;
            let end: usize = if i + 1 < n {
                self.offsets[i + 1] as usize
            } else {
                data.len()
            };
            assert(end == span_end(self@, i as int, data@.len()));
            let bytes = slice_subrange(data, start, end);
            let line = Dialogue {
                chunk: chunk_label(chunk),
                offset: offset_label(offset),
                character: String::new(),
                expression: String::new(),
                source_text: decode_line(bytes),
                translated_text: String::new(),
            };
            found.push(line);
            i += 1;
        }
        assert(views(found@) =~= lines_of(data@, self@, chunk as nat)->Ok_0);
        Ok(found)
    }
}

} // verus!
