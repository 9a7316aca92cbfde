use matting::text::{decimal, hex, signed_decimal, trim};

#[test]
fn numbers_are_written_as_usual() {
    for n in [0u64, 9, 10, 99, 100, 1024, u64::MAX] {
        assert_eq!(decimal(n), n.to_string());
    }
    for n in [0i64, -1, 7, -10, i64::MAX, i64::MIN] {
        assert_eq!(signed_decimal(n), n.to_string());
    }
    assert_eq!(hex(&[]), "");
    assert_eq!(hex(&[0, 1, 0x9a, 0xff]), "00019aff");
}

#[test]
fn trimming_knows_all_white_space() {
    for code in 0..=0x10ffffu32 {
        if let Some(c) = char::from_u32(code) {
            if c.is_whitespace() || code < 0x3100 {
                let s = format!("{c}{c}x {c}y{c}");
                assert_eq!(trim(&s), s.trim(), "{code:#x}");
            }
        }
    }
    assert_eq!(trim(""), "");
    assert_eq!(trim(" \t\n"), "");
}
