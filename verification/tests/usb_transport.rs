use flypro::usb::{
    endpoint_direction, is_flypro_device, power_milliamps, EndpointDirection,
    EndpointTransferType, UsbConfigurationReport, UsbEndpointReport, UsbInterfaceReport,
};
use flypro::usb_transport::{
    aborted, check_length, deliver, interface_candidate, is_supported, next_drain, next_wait,
    request_length, select_interface, EndpointSlot, InterfaceSetting, TransferAction, TransferEnd,
    TransferEvent, TransferFault, TransferRequest, TransferSession, WaitStep,
};

fn setting(number: u8, addresses: &[u8]) -> InterfaceSetting {
    InterfaceSetting {
        interface_number: number,
        alternate_setting: number + 1,
        endpoints: addresses
            .iter()
            .map(|address| EndpointSlot {
                address: *address,
                transfer_type: if *address == 0x85 {
                    EndpointTransferType::Interrupt
                } else {
                    EndpointTransferType::Bulk
                },
            })
            .collect(),
    }
}

#[test]
fn the_first_complete_interface_is_selected() {
    let settings = [
        setting(0, &[0x02, 0x03, 0x82, 0x83, 0x84]),
        setting(1, &[0x85, 0x86, 0x84, 0x83, 0x82, 0x03, 0x02]),
        setting(2, &[0x02, 0x03, 0x82, 0x83, 0x84, 0x85]),
    ];

    let candidate = select_interface(&settings).expect("a complete setting");
    assert_eq!(candidate.interface_number(), 1);
    assert_eq!(candidate.alternate_setting(), 2);
    assert_eq!(
        candidate.transfer_type(0x85),
        Some(EndpointTransferType::Interrupt)
    );
    assert_eq!(
        candidate.transfer_type(0x02),
        Some(EndpointTransferType::Bulk)
    );
    assert_eq!(candidate.transfer_type(0x86), None);
    assert!(interface_candidate(&settings[0]).is_none());
    assert!(select_interface(&settings[..1]).is_none());
}

#[test]
fn only_bulk_and_interrupt_endpoints_are_supported() {
    assert!(is_supported(EndpointTransferType::Bulk));
    assert!(is_supported(EndpointTransferType::Interrupt));
    assert!(!is_supported(EndpointTransferType::Control));
    assert!(!is_supported(EndpointTransferType::Isochronous));
}

fn request(length: usize, packet_size: Option<usize>) -> TransferRequest {
    TransferRequest {
        pipe: 0x83,
        length,
        timeout: 100,
        packet_size,
    }
}

fn pending(cancelled: bool, elapsed: u128) -> TransferEvent {
    TransferEvent::Pending { cancelled, elapsed }
}

#[test]
fn requests_are_refused_in_a_fixed_order() {
    let mut session = TransferSession::new();
    assert_eq!(
        session.begin(request(0, Some(0)), true),
        Err(TransferFault::ZeroLength { pipe: 0x83 })
    );
    assert_eq!(
        session.begin(request(1, Some(0)), false),
        Err(TransferFault::InvalidPacketSize { pipe: 0x83 })
    );
    assert!(session.is_usable());
    assert_eq!(session.step(pending(false, 0)), TransferAction::Idle);
    assert_eq!(session.begin(request(3, Some(64)), false), Ok(64));
    assert_eq!(session.begin(request(3, None), false), Ok(3));
    assert_eq!(
        session.begin(request(3, Some(0)), true),
        Err(TransferFault::Cancelled { pipe: 0x83 })
    );
    assert!(!session.is_usable());
    assert_eq!(
        session.begin(request(0, None), false),
        Err(TransferFault::SessionUnusable)
    );
}

#[test]
fn exact_transfers_leave_a_session_usable() {
    let mut session = TransferSession::new();
    assert_eq!(session.begin(request(8, None), false), Ok(8));
    assert_eq!(
        session.step(pending(false, 90_000_000)),
        TransferAction::Poll {
            nanoseconds: 10_000_000,
        }
    );
    let done = TransferEvent::Completed {
        succeeded: true,
        actual: 8,
    };
    assert_eq!(session.step(done), TransferAction::End(TransferEnd::Done));
    assert!(session.is_usable());
    assert_eq!(session.step(done), TransferAction::Idle);
}

/// Runs one transfer to its end, and checks that the session is never used again.
fn ends_for_good(events: &[TransferEvent]) -> TransferAction {
    let mut session = TransferSession::new();
    assert_eq!(session.begin(request(8, None), false), Ok(8));
    let mut last = TransferAction::Idle;
    for event in events {
        last = session.step(*event);
    }
    for _ in 0..2 {
        assert!(!session.is_usable());
        assert_eq!(
            session.begin(request(8, Some(64)), false),
            Err(TransferFault::SessionUnusable)
        );
        assert_eq!(session.step(pending(false, 0)), TransferAction::Idle);
    }
    last
}

#[test]
fn a_session_is_unusable_after_an_incomplete_transfer() {
    let completed = |succeeded: bool, actual: usize| TransferEvent::Completed { succeeded, actual };
    let fault = |fault: TransferFault| TransferAction::End(TransferEnd::Fault(fault));
    assert_eq!(
        ends_for_good(&[pending(false, 0), completed(false, 8)]),
        TransferAction::End(TransferEnd::Failed)
    );
    assert_eq!(
        ends_for_good(&[completed(true, 7)]),
        fault(TransferFault::ShortTransfer {
            pipe: 0x83,
            expected: 8,
            actual: 7,
        })
    );
    assert_eq!(
        ends_for_good(&[pending(true, 0), pending(false, 0), completed(true, 8)]),
        fault(TransferFault::Cancelled { pipe: 0x83 })
    );
    assert_eq!(
        ends_for_good(&[pending(false, 100_000_000), completed(true, 8)]),
        fault(TransferFault::Timeout {
            pipe: 0x83,
            timeout: 100,
        })
    );
    assert_eq!(
        ends_for_good(&[pending(false, 100_000_000), pending(true, 5_000_000_000)]),
        fault(TransferFault::CancellationRecovery { pipe: 0x83 })
    );
}

#[test]
fn aborted_transfers_are_drained() {
    let mut session = TransferSession::new();
    assert_eq!(session.begin(request(8, None), false), Ok(8));
    assert_eq!(session.step(pending(true, 0)), TransferAction::Abort);
    assert_eq!(
        session.step(pending(true, 4_999_999_999)),
        TransferAction::Poll {
            nanoseconds: 20_000_000,
        }
    );
}

#[test]
fn buffers_are_filled_only_by_transfers_that_were_done() {
    let mut bytes = [9, 9, 9];
    deliver(TransferEnd::Failed, &[1, 2, 3], &mut bytes);
    assert_eq!(bytes, [9, 9, 9]);
    deliver(TransferEnd::Done, &[1, 2, 3, 4], &mut bytes);
    assert_eq!(bytes, [1, 2, 3]);
}

#[test]
fn reads_ask_for_whole_packets() {
    assert_eq!(request_length(0x83, 1, 512), Ok(512));
    assert_eq!(request_length(0x83, 512, 512), Ok(512));
    assert_eq!(request_length(0x83, 513, 512), Ok(1024));
    assert_eq!(request_length(0x83, 0, 512), Ok(0));
    assert_eq!(request_length(0x83, usize::MAX, 1), Ok(usize::MAX));
    assert_eq!(
        request_length(0x83, 1, 0),
        Err(TransferFault::InvalidPacketSize { pipe: 0x83 })
    );
}

#[test]
fn waiting_ends_with_cancellation_or_the_deadline() {
    assert_eq!(next_wait(true, 0, 100), WaitStep::AbortCancelled);
    assert_eq!(
        next_wait(false, 0, 100),
        WaitStep::Poll {
            nanoseconds: 20_000_000,
        }
    );
    assert_eq!(
        next_wait(false, 99_999_999, 100),
        WaitStep::Poll { nanoseconds: 1 }
    );
    assert_eq!(next_wait(false, 100_000_000, 100), WaitStep::AbortExpired);
    assert_eq!(next_drain(0), Some(20_000_000));
    assert_eq!(next_drain(5_000_000_000), None);
}

#[test]
fn faults_say_how_a_transfer_ended() {
    assert_eq!(
        aborted(0x82, 100, true, true),
        TransferFault::Cancelled { pipe: 0x82 }
    );
    assert_eq!(
        aborted(0x82, 100, false, true),
        TransferFault::Timeout {
            pipe: 0x82,
            timeout: 100,
        }
    );
    assert_eq!(
        aborted(0x82, 100, false, false),
        TransferFault::CancellationRecovery { pipe: 0x82 }
    );
    assert_eq!(check_length(0x82, 1, 1), Ok(()));
    assert_eq!(
        check_length(0x82, 2, 1),
        Err(TransferFault::ShortTransfer {
            pipe: 0x82,
            expected: 2,
            actual: 1,
        })
    );
}

#[test]
fn reports_derive_directions_power_and_validation() {
    assert!(is_flypro_device(0x5346, 0x5109));
    assert!(!is_flypro_device(0x5346, 0x5108));
    assert_eq!(endpoint_direction(0x7f), EndpointDirection::Out);
    assert_eq!(endpoint_direction(0x80), EndpointDirection::In);
    assert_eq!(power_milliamps(250), 500);

    let endpoint = |address: u8| {
        UsbEndpointReport::new(address, EndpointTransferType::Bulk, 2, 64, 64, 0, vec![7])
    };
    let interface =
        UsbInterfaceReport::new(1, 0, 2, 0xff, 0, 0, vec![endpoint(0x02), endpoint(0x83)]);
    assert_eq!(interface.endpoints[1].direction, EndpointDirection::In);
    assert_eq!(interface.flypro_pipe_validation.present, vec![0x02, 0x83]);
    assert_eq!(
        interface.flypro_pipe_validation.missing,
        vec![0x03, 0x82, 0x84, 0x85]
    );
    assert!(!interface.flypro_pipe_validation.complete);
    let configuration = UsbConfigurationReport::new(1, 1, 0x80, 50, vec![9], vec![interface]);
    assert_eq!(configuration.max_power_milliamps, 100);
}
