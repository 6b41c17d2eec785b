use flypro::transport::{InPipe, OutPipe};

#[test]
fn pipe_addresses_preserve_usb_direction_bit() {
    assert_eq!(OutPipe::Command.address(), 0x02);
    assert_eq!(OutPipe::Payload.address(), 0x03);
    assert_eq!(InPipe::Completion.address(), 0x82);
    assert_eq!(InPipe::Response.address(), 0x83);
    assert_eq!(InPipe::AuxiliaryResult.address(), 0x84);
    assert_eq!(InPipe::Specialized.address(), 0x85);
}
