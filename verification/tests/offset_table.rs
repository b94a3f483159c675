use msl_script_tools::{DecodeError, DialogueOffsetTable};

#[test]
fn returns_the_offsets_in_file_order() {
    let data = [0, 0, 0, 0x30, 0, 0, 0, 0x10, 0, 1, 0, 0, 0xFF, 0xFF, 0xFF, 0xFF];
    let table = DialogueOffsetTable::parse(&data, 4).unwrap();
    assert_eq!(table.offsets, vec![0x30, 0x10, 0x0001_0000, u32::MAX]);
}

#[test]
fn an_empty_table_has_no_offsets() {
    let table = DialogueOffsetTable::parse(&[], 0).unwrap();
    assert!(table.offsets.is_empty());
}

#[test]
fn returns_as_many_offsets_as_declared() {
    for count in 0..20u32 {
        let mut data = Vec::new();
        for i in 0..count {
            data.extend_from_slice(&(i * 7 + 1).to_be_bytes());
        }
        let table = DialogueOffsetTable::parse(&data, count).unwrap();
        assert_eq!(table.offsets.len(), count as usize);
        for i in 0..count {
            assert_eq!(table.offsets[i as usize], i * 7 + 1);
        }
    }
}

#[test]
fn any_other_length_is_a_size_mismatch() {
    let data = [0u8; 16];
    for len in 0..=16usize {
        for count in 0..6u32 {
            let parsed = DialogueOffsetTable::parse(&data[..len], count);
            if len == 4 * count as usize {
                assert!(parsed.is_ok());
            } else {
                assert_eq!(parsed.err(), Some(DecodeError::SizeMismatch));
            }
        }
    }
}

#[test]
fn a_count_that_does_not_fit_is_a_size_mismatch() {
    let data = [0u8; 8];
    assert_eq!(
        DialogueOffsetTable::parse(&data, u32::MAX).err(),
        Some(DecodeError::SizeMismatch)
    );
    assert_eq!(
        DialogueOffsetTable::parse(&data, 0x4000_0002).err(),
        Some(DecodeError::SizeMismatch)
    );
}

#[test]
fn fits_tells_whether_the_spans_lie_in_the_chunk() {
    let table = DialogueOffsetTable { offsets: vec![2, 5, 5, 9] };
    assert!(table.fits(9));
    assert!(table.fits(100));
    assert!(!table.fits(8));
    let unordered = DialogueOffsetTable { offsets: vec![5, 2] };
    assert!(!unordered.fits(100));
    let empty = DialogueOffsetTable { offsets: vec![] };
    assert!(empty.fits(0));
}
