use msl_script_tools::text::{can_decode, decode_line, put_hearts, translate_span};
use msl_script_tools::{DecodeError, Dialogue, DialogueOffsetTable};

fn texts(lines: &[Dialogue]) -> Vec<String> {
    lines.iter().map(|line| line.source_text.clone()).collect()
}

#[test]
fn two_lines_back_to_back() {
    let mut chunk = vec![0xEE; 6];
    let first = chunk.len() as u32;
    chunk.extend_from_slice(b"A\0");
    let second = chunk.len() as u32;
    chunk.extend_from_slice(b"B\x08B");
    let table = DialogueOffsetTable { offsets: vec![first, second] };
    let lines = table.extract_lines(&chunk, 0).unwrap();
    assert_eq!(lines.len(), 2);
    assert_eq!(lines[0].source_text, "A");
    assert_eq!(lines[1].source_text, "B\n\nB");
}

#[test]
fn markers_only() {
    let chunk = [0x0C, 0x0D, 0x00];
    let table = DialogueOffsetTable { offsets: vec![0] };
    let lines = table.extract_lines(&chunk, 0).unwrap();
    assert_eq!(lines.len(), 1);
    assert_eq!(lines[0].source_text, "\\c\\p");
    assert_eq!(decode_line(&chunk), "\\c\\p");
}

#[test]
fn nothing_after_the_nul_is_kept() {
    let chunk = [0x0C, 0x0D, 0x00, b'X', 0x08, b'Y'];
    assert_eq!(translate_span(&chunk), b"\\c\\p".to_vec());
    assert_eq!(decode_line(&chunk), "\\c\\p");
    assert_eq!(decode_line(&[0x00, b'Z']), "");
    assert_eq!(decode_line(&[]), "");
}

#[test]
fn control_bytes_become_markers() {
    assert_eq!(translate_span(&[0x08]), vec![0x0A, 0x0A]);
    assert_eq!(translate_span(&[0x0C]), vec![0x5C, 0x63]);
    assert_eq!(translate_span(&[0x0D]), vec![0x5C, 0x70]);
    assert_eq!(translate_span(&[0x00]), Vec::<u8>::new());
    assert_eq!(translate_span(&[0x41, 0x82, 0xB1, 0x09, 0x0A]), vec![0x41, 0x82, 0xB1, 0x09, 0x0A]);
    assert_eq!(
        translate_span(&[b'a', 0x08, b'b', 0x0C, b'c', 0x0D, b'd', 0x00, b'e']),
        b"a\n\nb\\cc\\pd".to_vec()
    );
}

#[test]
fn input_wait_does_not_end_the_line() {
    assert_eq!(decode_line(b"one\x08two\x08three\0four"), "one\n\ntwo\n\nthree");
}

#[test]
fn shift_jis_is_decoded() {
    let bytes = [0x82, 0xB1, 0x82, 0xF1, 0x82, 0xC9, 0x82, 0xBF, 0x82, 0xCD];
    assert_eq!(decode_line(&bytes), "\u{3053}\u{3093}\u{306B}\u{3061}\u{306F}");
    assert_eq!(decode_line(&[0x83, 0x41]), "\u{30A2}");
    assert_eq!(decode_line(&[0x88, 0xA4, 0x00]), "\u{611B}");
    assert_eq!(decode_line(&[0xB1]), "\u{FF71}");
}

#[test]
fn the_kanji_is_printed_as_a_heart() {
    assert_eq!(decode_line(&[0x9E, 0x42]), "\u{2764}");
    assert_eq!(decode_line(&[0x9E, 0x42, 0x96, 0x86, 0x00]), "\u{2764}\u{6627}");
    assert_eq!(decode_line(&[b'I', 0x9E, 0x42, b'U', 0x9E, 0x42]), "I\u{2764}U\u{2764}");
}

#[test]
fn hearts_replace_one_code_point_only() {
    assert_eq!(put_hearts("\u{66D6}"), "\u{2764}");
    assert_eq!(put_hearts("a\u{66D6}\u{66D6}b\u{66D5}\u{66D7}"), "a\u{2764}\u{2764}b\u{66D5}\u{66D7}");
    assert_eq!(put_hearts("\u{2764}"), "\u{2764}");
    assert_eq!(put_hearts(""), "");
    assert_eq!(put_hearts("plain \u{3053}"), "plain \u{3053}");
}

#[test]
fn malformed_bytes_are_replaced() {
    assert_eq!(decode_line(&[b'a', 0x82]), "a\u{FFFD}");
    assert_eq!(decode_line(&[0xFD, b'b']), "\u{FFFD}b");
}

#[test]
fn records_carry_their_origin() {
    let chunk = b"xxhello\0world".to_vec();
    let table = DialogueOffsetTable { offsets: vec![2, 8] };
    let lines = table.extract_lines(&chunk, 12).unwrap();
    assert_eq!(texts(&lines), vec!["hello", "world"]);
    assert_eq!(lines[0].chunk, "12");
    assert_eq!(lines[0].offset, "0x2");
    assert_eq!(lines[1].chunk, "12");
    assert_eq!(lines[1].offset, "0x8");
    for line in &lines {
        assert_eq!(line.character, "");
        assert_eq!(line.expression, "");
        assert_eq!(line.translated_text, "");
    }
}

#[test]
fn a_line_ends_at_the_next_offset() {
    let chunk = b"abcdefgh".to_vec();
    let table = DialogueOffsetTable { offsets: vec![0, 3, 3, 6] };
    let lines = table.extract_lines(&chunk, 0).unwrap();
    assert_eq!(texts(&lines), vec!["abc", "", "def", "gh"]);
}

#[test]
fn the_last_line_runs_to_the_end_of_the_chunk() {
    let chunk = b"abcdefgh".to_vec();
    let table = DialogueOffsetTable { offsets: vec![8] };
    assert_eq!(texts(&table.extract_lines(&chunk, 0).unwrap()), vec![""]);
    let table = DialogueOffsetTable { offsets: vec![5] };
    assert_eq!(texts(&table.extract_lines(&chunk, 0).unwrap()), vec!["fgh"]);
}

#[test]
fn no_offsets_no_lines() {
    let table = DialogueOffsetTable { offsets: vec![] };
    assert!(table.extract_lines(b"abc", 0).unwrap().is_empty());
}

#[test]
fn offsets_out_of_order_are_malformed() {
    let table = DialogueOffsetTable { offsets: vec![4, 2] };
    assert_eq!(table.extract_lines(b"abcdefgh", 0).err(), Some(DecodeError::MalformedHeader));
}

#[test]
fn offsets_past_the_chunk_are_malformed() {
    let table = DialogueOffsetTable { offsets: vec![0, 9] };
    assert_eq!(table.extract_lines(b"abcdefgh", 0).err(), Some(DecodeError::MalformedHeader));
    let table = DialogueOffsetTable { offsets: vec![u32::MAX] };
    assert_eq!(table.extract_lines(b"abcdefgh", 0).err(), Some(DecodeError::MalformedHeader));
}

#[test]
fn extracting_leaves_the_chunk_alone() {
    let chunk = b"ab\x08cd\0ef".to_vec();
    let copy = chunk.clone();
    let table = DialogueOffsetTable { offsets: vec![0, 4] };
    let _ = table.extract_lines(&chunk, 0);
    assert_eq!(chunk, copy);
}

#[test]
fn the_decoder_takes_every_chunk_of_the_format() {
    assert!(can_decode(0));
    assert!(can_decode(2048));
    assert!(can_decode(usize::MAX / 32));
    assert!(!can_decode(usize::MAX / 32 + 1));
    assert!(!can_decode(usize::MAX));
}
