//! One line of dialogue, as it leaves the decoder.

use vstd::prelude::*;

use crate::render::{decimal_text, hex_text};
use crate::text::line_text;

verus! {

/// One line of dialogue together with the place it was read from.
#[derive(Clone, Debug)]
pub struct Dialogue {
    /// The chunk that the line stands in. A script dump gathers every chunk
    /// of a map, so each line keeps track of its own.
    pub chunk: String,
    /// Where the line starts within that chunk.
    pub offset: String,
    /// Who speaks the line. The decoder cannot tell and leaves it empty.
    pub character: String,
    /// The portrait shown with the line. Left empty as well.
    pub expression: String,
    /// The line itself, decoded from Shift-JIS.
    pub source_text: String,
    /// Room for a translation; always empty on extraction.
    pub translated_text: String,
}

/// What a [`Dialogue`] holds, as plain sequences of characters.
pub struct DialogueView {
    pub chunk: Seq<char>,
    pub offset: Seq<char>,
    pub character: Seq<char>,
    pub expression: Seq<char>,
    pub source_text: Seq<char>,
    pub translated_text: Seq<char>,
}

impl View for Dialogue {
    type V = DialogueView;

    open spec fn view(&self) -> DialogueView {
        DialogueView {
            chunk: self.chunk@,
            offset: self.offset@,
            character: self.character@,
            expression: self.expression@,
            source_text: self.source_text@,
            translated_text: self.translated_text@,
        }
    }
}

/// The record for the line that `span` holds, read at `offset` of chunk
/// number `chunk`.
pub open spec fn record_of(chunk: nat, offset: nat, span: Seq<u8>) -> DialogueView {
    DialogueView {
        chunk: decimal_text(chunk),
        offset: hex_text(offset),
        character: Seq::empty(),
        expression: Seq::empty(),
        source_text: line_text(span),
        translated_text: Seq::empty(),
    }
}

/// The views of a list of records, in the same order.
pub open spec fn views(lines: Seq<Dialogue>) -> Seq<DialogueView> {
    Seq::new(lines.len(), |i: int| lines[i]@)
}

} // verus!
