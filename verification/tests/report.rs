use flypro::report::{distinct_versions, encode_hex, format_bcd_timestamp, format_statuses};

#[test]
fn formats_confirmed_bcd_timestamp() {
    assert_eq!(
        format_bcd_timestamp([0x20, 0x24, 0x05, 0x18, 0x13, 0x04, 0x30, 0]),
        "2024-05-18 13:04:30"
    );
}

#[test]
fn pads_small_timestamp_parts() {
    assert_eq!(
        format_bcd_timestamp([0x00, 0x07, 0x01, 0x02, 0x00, 0x00, 0x09, 0]),
        "0007-01-02 00:00:09"
    );
}

#[test]
fn formats_bytes_and_statuses() {
    assert_eq!(encode_hex(&[0x00, 0xab, 0x10]), "00ab10");
    assert_eq!(encode_hex(&[]), "");
    assert_eq!(format_statuses(&[]), "none");
    assert_eq!(format_statuses(&[0x80]), "0x80");
    assert_eq!(format_statuses(&[0x80, 0x05]), "0x80,0x05");
}

#[test]
fn lists_versions_once_in_order() {
    assert_eq!(
        distinct_versions(&[0x0100, 0x0003, 0x0100, 0xffff, 0x0003]),
        vec![0x0003, 0x0100, 0xffff]
    );
    assert!(distinct_versions(&[]).is_empty());
}
