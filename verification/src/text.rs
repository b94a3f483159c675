//! From the bytes of one dialogue span to its text.
//!
//! A span is scanned once from left to right. Control bytes become portable
//! markers, a NUL ends the line, and what is left is decoded from Shift-JIS.
//! The game's font draws a heart in place of one kanji, so that code point is
//! swapped after decoding.

use encoding_rs::SHIFT_JIS;
use vstd::prelude::*;

use crate::render::push_char;

verus! {

/// Control byte: wait for the player's input.
pub const WAIT_FOR_INPUT: u8 = 0x08;

/// Control byte: clear the text box and keep printing.
pub const CLEAR_TEXTBOX: u8 = 0x0C;

/// Control byte: printing delay.
pub const PRINT_DELAY: u8 = 0x0D;

/// The byte that ends a line.
pub const END_OF_LINE: u8 = 0x00;

/// The kanji whose slot the game's font fills with a heart.
pub const REPLACED_KANJI: char = '\u{66D6}';

/// The heart that is printed in its place.
pub const HEART: char = '\u{2764}';

/// What one byte of a span contributes to the buffer that is decoded.
/// The end-of-line byte contributes nothing; it is handled by the scan.
pub open spec fn marker(byte: u8) -> Seq<u8> {
    if byte == WAIT_FOR_INPUT {
        seq![0x0Au8, 0x0Au8]
    } else if byte == CLEAR_TEXTBOX {
        seq![0x5Cu8, 0x63u8]
    } else if byte == PRINT_DELAY {
        seq![0x5Cu8, 0x70u8]
    } else if byte == END_OF_LINE {
        Seq::empty()
    } else {
        seq![byte]
    }
}

/// The buffer that a span translates to: every byte before the first NUL
/// replaced by its marker, and nothing from the NUL on.
pub open spec fn translated(span: Seq<u8>) -> Seq<u8>
    decreases span.len(),
{
    if span.len() == 0 || span[0] == END_OF_LINE {
        Seq::empty()
    } else {
        marker(span[0]) + translated(span.drop_first())
    }
}

/// Scanning a span whose first `n` bytes hold no NUL: the translation is
/// that of the first `n` bytes followed by that of the rest.
pub proof fn lemma_translated_split(span: Seq<u8>, n: int)
    requires
        0 <= n <= span.len(),
        forall|k: int| 0 <= k < n ==> span[k] != END_OF_LINE,
    ensures
        translated(span) == translated(span.take(n)) + translated(span.skip(n)),
    decreases n,
{
    if n == 0 {
        assert(span.take(0) =~= Seq::<u8>::empty());
        assert(span.skip(0) =~= span);
        assert(translated(span.take(0)) =~= Seq::<u8>::empty());
        assert(translated(span) =~= translated(span.take(n)) + translated(span.skip(n)));
    } else {
        let rest = span.drop_first();
        lemma_translated_split(rest, n - 1);
        assert(rest.take(n - 1) =~= span.take(n).drop_first());
        assert(rest.skip(n - 1) =~= span.skip(n));
        assert(span.take(n)[0] == span[0]);
        assert(translated(span) =~= translated(span.take(n)) + translated(span.skip(n)));
    }
}

/// A span without NUL that grows by one byte grows its translation by that
/// byte's marker.
pub proof fn lemma_translated_push(prefix: Seq<u8>, byte: u8)
    requires
        forall|k: int| 0 <= k < prefix.len() ==> prefix[k] != END_OF_LINE,
        byte != END_OF_LINE,
    ensures
        translated(prefix.push(byte)) == translated(prefix) + marker(byte),
{
    let whole = prefix.push(byte);
    lemma_translated_split(whole, prefix.len() as int);
    assert(whole.take(prefix.len() as int) =~= prefix);
    let last = whole.skip(prefix.len() as int);
    assert(last =~= seq![byte]);
    assert(last.drop_first() =~= Seq::<u8>::empty());
    assert(translated(last.drop_first()) =~= Seq::<u8>::empty());
    assert(translated(last) =~= marker(byte));
}

/// Translates the control bytes of one span.
pub fn translate_span(span: &[u8]) -> (buffer: Vec<u8>)
    ensures
        buffer@ == translated(span@),
{
    let mut buffer: Vec<u8> = Vec::new();
    let mut at: usize = 0;
    let mut ended = false;
    while at < span.len() && !ended
        invariant
            at <= span@.len(),
            !ended ==> forall|k: int| 0 <= k < at ==> span@[k] != END_OF_LINE,
            !ended ==> buffer@ == translated(span@.take(at as int)),
            ended ==> buffer@ == translated(span@),
        decreases span@.len() - at, if ended { 0int } else { 1int },
    {
        let byte: u8 = span[at];
        proof {
            if byte == END_OF_LINE {
                lemma_translated_split(span@, at as int);
                assert(translated(span@.skip(at as int)) =~= Seq::<u8>::empty());
                assert(translated(span@) =~= translated(span@.take(at as int)));
            } else {
                lemma_translated_push(span@.take(at as int), byte);
                assert(span@.take(at as int).push(byte) =~= span@.take(at as int + 1));
            }
        }
        if byte == END_OF_LINE {
            ended = true;
        } else if byte == WAIT_FOR_INPUT {
            buffer.push(0x0A);
            buffer.push(0x0A);
            at += 1;
        } else if byte == CLEAR_TEXTBOX {
            buffer.push(0x5C);
            buffer.push(0x63);
            at += 1;
        } else if byte == PRINT_DELAY {
            buffer.push(0x5C);
            buffer.push(0x70);
            at += 1;
        } else {
            buffer.push(byte);
            at += 1;
        }
        proof {
            if !ended {
                assert(buffer@ =~= translated(span@.take(at as int - 1)) + marker(byte));
            }
        }
    }
    proof {
        if !ended {
            assert(span@.take(at as int) =~= span@);
        }
    }
    buffer
}

/// The text that `encoding_rs::Encoding::decode` yields for `bytes` when it
/// is called on the Shift-JIS encoding.
pub uninterp spec fn shift_jis_text(bytes: Seq<u8>) -> Seq<char>;

/// Whether a buffer of `len` bytes is short enough for the decoder. The
/// decoder sizes its output at a little over three times the input, may
/// reserve as much again, and panics when one of these sizes overflows.
pub open spec fn decodable_len(len: nat) -> bool {
    len <= usize::MAX / 16
}

/// Whether the lines of a buffer of `len` bytes can go to the decoder: a
/// line's translation is at most twice as long as the line.
pub fn can_decode(len: usize) -> (ok: bool)
    ensures
        ok == decodable_len((2 * len) as nat),
{
    len <= usize::MAX / 32
}

/// `encoding_rs::Encoding::decode` on `encoding_rs::SHIFT_JIS`, keeping the
/// text and dropping the two flags that come with it. The call decodes the
/// whole buffer, replaces malformed sequences by U+FFFD, and looks for a byte
/// order mark first: a buffer that opens with one is read as UTF-8 or UTF-16
/// instead. The text depends on the bytes alone, and the contract names it.
/// The call panics only when the size of its output buffer overflows or
/// passes what a `String` may hold, which the bound on the length rules out.
#[verifier::external_body]
fn decode_shift_jis(bytes: &[u8]) -> (text: String)
    requires
        decodable_len(bytes@.len()),
    ensures
        text@ == shift_jis_text(bytes@),
{
    let (decoded, _, _) = SHIFT_JIS.decode(bytes);
    decoded.into_owned()
}

/// The character printed for `c`: the heart for the replaced kanji, and `c`
/// itself for every other character.
pub open spec fn printed_char(c: char) -> char {
    if c == REPLACED_KANJI {
        HEART
    } else {
        c
    }
}

/// A text with every character replaced by the one printed for it.
pub open spec fn with_hearts(text: Seq<char>) -> Seq<char> {
    Seq::new(text.len(), |i: int| printed_char(text[i]))
}

/// Swaps every occurrence of the replaced kanji for the heart.
pub fn put_hearts(text: &str) -> (printed: String)
    ensures
        printed@ == with_hearts(text@),
{
    let mut printed = String::new();
    for c in it: text.chars()
        invariant
            it.seq() == text@,
            printed@ == with_hearts(text@.take(it.index() as int)),
    {
        let shown: char = if c == REPLACED_KANJI { HEART } else { c };
        push_char(&mut printed, shown);
        assert(printed@ =~= with_hearts(text@.take(it.index() + 1)));
    }
    assert(text@.take(text@.len() as int) =~= text@);
    printed
}

/// The text of the line that a span holds: its translation, decoded, with
/// the heart in place.
pub open spec fn line_text(span: Seq<u8>) -> Seq<char> {
    with_hearts(shift_jis_text(translated(span)))
}

/// In the text of a line the replaced kanji never shows: wherever the
/// decoder gave it there is a heart, and every other character stands as the
/// decoder gave it.
pub proof fn lemma_heart_replaces_kanji(span: Seq<u8>)
    ensures
        line_text(span).len() == shift_jis_text(translated(span)).len(),
        forall|i: int|
            0 <= i < line_text(span).len() ==> #[trigger] line_text(span)[i] != REPLACED_KANJI,
        forall|i: int|
            0 <= i < line_text(span).len() && shift_jis_text(translated(span))[i]
                == REPLACED_KANJI ==> #[trigger] line_text(span)[i] == HEART,
        forall|i: int|
            0 <= i < line_text(span).len() && shift_jis_text(translated(span))[i]
                != REPLACED_KANJI ==> #[trigger] line_text(span)[i] == shift_jis_text(
                translated(span),
            )[i],
{
}

/// A text without the replaced kanji is printed as it is.
pub proof fn lemma_other_text_unchanged(text: Seq<char>)
    requires
        forall|i: int| 0 <= i < text.len() ==> text[i] != REPLACED_KANJI,
    ensures
        with_hearts(text) == text,
{
    assert(with_hearts(text) =~= text);
}

/// The translation of a span is at most twice as long as the span.
pub proof fn lemma_translated_len(span: Seq<u8>)
    ensures
        translated(span).len() <= 2 * span.len(),
    decreases span.len(),
{
    if span.len() > 0 && span[0] != END_OF_LINE {
        lemma_translated_len(span.drop_first());
    }
}

/// Decodes the line that a span holds.
///
/// The span has to be short enough for the decoder once every byte of it
/// has doubled; `can_decode` tells.
pub fn decode_line(span: &[u8]) -> (text: String)
    requires
        decodable_len(2 * span@.len()),
    ensures
        text@ == line_text(span@),
{
    let buffer = translate_span(span);
    proof {
        lemma_translated_len(span@);
    }
    let decoded = decode_shift_jis(buffer.as_slice());
    put_hearts(decoded.as_str())
}

} // verus!
