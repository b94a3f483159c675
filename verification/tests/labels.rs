use msl_script_tools::render::{chunk_label, offset_label};

#[test]
fn chunk_labels_are_decimal() {
    assert_eq!(chunk_label(0), "0");
    assert_eq!(chunk_label(7), "7");
    assert_eq!(chunk_label(10), "10");
    assert_eq!(chunk_label(1234567890), "1234567890");
    assert_eq!(chunk_label(usize::MAX), format!("{}", usize::MAX));
}

#[test]
fn offset_labels_are_upper_case_hexadecimal() {
    assert_eq!(offset_label(0), "0x0");
    assert_eq!(offset_label(9), "0x9");
    assert_eq!(offset_label(10), "0xA");
    assert_eq!(offset_label(255), "0xFF");
    assert_eq!(offset_label(0x1F40), "0x1F40");
    assert_eq!(offset_label(0xDEAD_BEEF), "0xDEADBEEF");
    assert_eq!(offset_label(u32::MAX), "0xFFFFFFFF");
}

#[test]
fn labels_agree_with_the_formatter() {
    let mut n: u32 = 1;
    for _ in 0..200 {
        assert_eq!(offset_label(n), format!("{:#X}", n));
        assert_eq!(chunk_label(n as usize), format!("{}", n));
        n = n.wrapping_mul(1_664_525).wrapping_add(1_013_904_223);
    }
}
