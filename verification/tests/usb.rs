use flypro::usb::{validate_pipe_addresses, REQUIRED_PIPE_ADDRESSES};

#[test]
fn accepts_exact_confirmed_pipe_set() {
    let validation = validate_pipe_addresses(&REQUIRED_PIPE_ADDRESSES);

    assert!(validation.complete);
    assert_eq!(validation.present, REQUIRED_PIPE_ADDRESSES);
    assert!(validation.missing.is_empty());
    assert!(validation.unexpected.is_empty());
}

#[test]
fn reports_missing_and_unexpected_pipes_without_guessing() {
    let validation = validate_pipe_addresses(&[0x02, 0x03, 0x82, 0x86]);

    assert!(!validation.complete);
    assert_eq!(validation.present, vec![0x02, 0x03, 0x82]);
    assert_eq!(validation.missing, vec![0x83, 0x84, 0x85]);
    assert_eq!(validation.unexpected, vec![0x86]);
}

#[test]
fn required_pipe_order_matches_endpoint_slots() {
    assert_eq!(
        REQUIRED_PIPE_ADDRESSES,
        [0x02, 0x03, 0x82, 0x83, 0x84, 0x85]
    );
}
