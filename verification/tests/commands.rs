use std::cell::RefCell;
use std::rc::Rc;

use crc32fast::hash;
use flypro::assets::algorithm::Algorithm;
use flypro::assets::defaults::default_device_database;
use flypro::assets::device_db::{
    sfly_crc16, DEVICE_RECORD_BYTES, TRAILER_SUM, VENDOR_RECORD_BYTES,
};
use flypro::assets::embedded_algorithms::EmbeddedAlgorithm;
use flypro::assets::embedded_configurations::EmbeddedConfiguration;
use flypro::assets::package_map::PackageMap;
use flypro::commands::{
    make_ready, program_project, read_backup, validate_project, verify_project, BackupError,
    ReadyError, TargetReady,
};
use flypro::operations::{OperationError, VerifyMismatch};
use flypro::parameters::ParameterOperation;
use flypro::protocol::DeviceParameterImage;
use flypro::session::{AlgorithmSession, PrepareError};
use flypro::target::{
    resolve_target, validate_blank_chunk, validate_record_limit, ReadbackError, RequestError,
    ResolvedTarget, TargetAssets, TargetRequest,
};
use flypro::transport::{Delay, InPipe, NeverCancelled, OutPipe, TransferOptions, Transport};

const STEM_XOR_KEY: [u8; 16] = [
    0xc5, 0xfc, 0x82, 0xde, 0xb1, 0xf3, 0xaf, 0xe3, 0xbc, 0xc4, 0xa2, 0x99, 0xb1, 0xe1, 0x96, 0x9c,
];

fn algorithm_file(name: &str) -> Vec<u8> {
    let mut bytes = vec![0_u8; 0x200 + 0x4000 + 0x0c + 4];
    bytes[..4].copy_from_slice(b"ALG\0");
    bytes[0x08..0x0a].copy_from_slice(&0x4000_u16.to_le_bytes());
    bytes[0x10..0x10 + name.len()].copy_from_slice(name.as_bytes());
    bytes[0x20..0x28].copy_from_slice(&[0x20, 0x24, 0x05, 0x18, 0x13, 0x04, 0x30, 0]);
    bytes[0x30..0x35].copy_from_slice(b"FLASH");
    let crc_offset = bytes.len() - 4;
    let crc = hash(&bytes[..crc_offset]);
    bytes[crc_offset..].copy_from_slice(&crc.to_le_bytes());
    bytes
}

fn configuration_file(name: &str) -> Vec<u8> {
    let mut bytes = vec![0_u8; 0x132];
    bytes[0..4].copy_from_slice(b"CFG\0");
    bytes[0x04..0x06].copy_from_slice(&9_u16.to_le_bytes());
    bytes[0x10..0x10 + name.len()].copy_from_slice(name.as_bytes());
    bytes[0x20..0x60].fill(0x31);
    bytes[0x60..0xa0].fill(0x7c);
    let crc = sfly_crc16(&bytes);
    bytes[0x130..].copy_from_slice(&crc.to_be_bytes());
    bytes
}

fn encode_stem(target: &mut [u8], stem: &str) {
    for (index, byte) in stem.bytes().enumerate() {
        target[index] = byte ^ STEM_XOR_KEY[index];
    }
}

fn device_record(name: &[u8], algorithm: &str, configuration: &str, length: u32) -> Vec<u8> {
    let mut raw = vec![0_u8; DEVICE_RECORD_BYTES];
    raw[..name.len()].copy_from_slice(name);
    raw[0x30..0x34].copy_from_slice(&length.to_le_bytes());
    encode_stem(&mut raw[0x50..0x60], algorithm);
    encode_stem(&mut raw[0x60..0x70], configuration);
    raw
}

fn catalog_file() -> Vec<u8> {
    let mut bytes = vec![0_u8; 0x100];
    bytes[0..4].copy_from_slice(b"DEV\0");
    bytes[0x04..0x06].copy_from_slice(&2_u16.to_le_bytes());
    bytes[0x08..0x0c].copy_from_slice(&1_u32.to_le_bytes());
    bytes[0x0c..0x10].copy_from_slice(&1_u32.to_le_bytes());
    bytes[0x10..0x18].copy_from_slice(b"SP20.dev");
    bytes[0x20..0x28].copy_from_slice(&[0x20, 0x26, 0x07, 0x14, 0x21, 0x00, 0x25, 0]);
    bytes[0xff] = bytes.iter().fold(0, |left, right| left ^ right);
    let mut owner = vec![0_u8; VENDOR_RECORD_BYTES];
    owner[..2].copy_from_slice(b"WB");
    owner[0x08..0x0c].copy_from_slice(&1_u32.to_le_bytes());
    owner[0x10..0x17].copy_from_slice(b"Winbond");
    bytes.extend_from_slice(&owner);
    bytes.extend_from_slice(&device_record(b"W25Q128BV", "W25Q128", "W25Q128S", 0x4000));
    let crc = sfly_crc16(&bytes);
    bytes.extend_from_slice(&crc.to_le_bytes());
    let sum = bytes
        .iter()
        .fold(0_u16, |sum, byte| sum.wrapping_add(u16::from(*byte)));
    bytes.extend_from_slice(&TRAILER_SUM.wrapping_sub(sum).to_le_bytes());
    bytes
}

fn target(operation: ParameterOperation, project_data: &[u8]) -> ResolvedTarget {
    let database = default_device_database(&catalog_file()).expect("valid catalog");
    let algorithm = algorithm_file("W25Q128");
    let configuration = configuration_file("W25Q128S");
    let packages = PackageMap::parse("150=1108,WSON8(8x6),SF-WSON8\n").expect("valid map");
    resolve_target(
        &TargetRequest {
            accept_static_protocol: true,
            chip: "W25Q128BV",
            vendor: None,
            package_key: Some(150),
            algorithm: None,
            configuration: None,
            parameters: None,
            operation,
            region: 0,
            project_data,
            local_time_bcd: [0x20, 0x26, 0x07, 0x20, 0x18, 0x30, 0x45],
        },
        &TargetAssets {
            database: &database,
            package_keys: &[vec![150]],
            algorithms: &[EmbeddedAlgorithm::new("w25q128", "w25q128.alg", &algorithm)],
            configurations: &[EmbeddedConfiguration::new(
                "W25Q128S",
                "W25Q128S.cfg",
                &configuration,
            )],
            packages: &packages,
        },
    )
    .expect("target resolves")
}

/// A programmer with a chip in its socket.
struct Programmer {
    memory: Vec<u8>,
    commands: Vec<Vec<u8>>,
    payloads: Vec<Vec<u8>>,
    cursor: usize,
    reject: Option<u16>,
    echo_parameters: bool,
}

impl Programmer {
    fn new() -> Self {
        Self {
            memory: vec![0xff; 0x4000],
            commands: Vec::new(),
            payloads: Vec::new(),
            cursor: 0,
            reject: None,
            echo_parameters: false,
        }
    }

    fn rejecting(code: u16) -> Self {
        let mut programmer = Self::new();
        programmer.reject = Some(code);
        programmer
    }

    fn word(&self, offset: usize) -> u32 {
        let command = self.commands.last().expect("a command came first");
        u32::from_le_bytes(command[offset..offset + 4].try_into().expect("four bytes"))
    }

    fn code(&self) -> u16 {
        let command = self.commands.last().expect("a command came first");
        u16::from_le_bytes([command[0], command[1]])
    }

    fn codes(&self) -> Vec<u16> {
        self.commands
            .iter()
            .map(|command| u16::from_le_bytes([command[0], command[1]]))
            .collect()
    }
}

impl Transport for Programmer {
    type Error = &'static str;

    fn write_exact(
        &mut self,
        pipe: OutPipe,
        bytes: &[u8],
        _options: TransferOptions<'_>,
    ) -> Result<(), Self::Error> {
        match pipe {
            OutPipe::Command => {
                self.commands.push(bytes.to_vec());
                self.cursor = usize::try_from(self.word(0x08)).expect("fits");
            }
            OutPipe::Payload => {
                if self.code() == 0x98 {
                    let start = self.cursor;
                    self.memory[start..start + bytes.len()].copy_from_slice(bytes);
                }
                self.payloads.push(bytes.to_vec());
            }
        }
        Ok(())
    }

    fn read_exact(
        &mut self,
        pipe: InPipe,
        bytes: &mut [u8],
        _options: TransferOptions<'_>,
    ) -> Result<(), Self::Error> {
        match pipe {
            InPipe::Completion => {
                let rejected = self.reject == Some(self.code());
                bytes[0] = if rejected { 0x40 } else { 0x80 };
            }
            InPipe::Response => match self.code() {
                0x08 => {
                    bytes.fill(0);
                    bytes[..7].copy_from_slice(b"W25Q128");
                    bytes[0x3c..].fill(0x55);
                }
                0x1d => {
                    let end = self.cursor + bytes.len();
                    if self.echo_parameters {
                        bytes.copy_from_slice(&self.payloads[0][self.cursor..end]);
                    } else {
                        bytes.copy_from_slice(&self.memory[self.cursor..end]);
                    }
                    self.cursor = end;
                }
                _ => bytes.fill(0x17),
            },
            InPipe::AuxiliaryResult | InPipe::Specialized => bytes.fill(0x06),
        }
        Ok(())
    }
}

#[derive(Default)]
struct Waits(Vec<u64>);

impl Delay for Waits {
    fn delay(&mut self, duration: u64) {
        self.0.push(duration);
    }
}

fn ready(
    programmer: &mut Programmer,
    waits: &mut Waits,
    target: &ResolvedTarget,
) -> Result<TargetReady, ReadyError<&'static str>> {
    make_ready(
        &mut AlgorithmSession::new(),
        programmer,
        waits,
        &NeverCancelled,
        target,
    )
}

/// A project whose first programmed byte lies behind the first two blocks.
fn project() -> Vec<u8> {
    let mut data = vec![0xff; 0x1234];
    data[0x1010] = 0x5a;
    data[0x1233] = 0xa5;
    data
}

#[test]
fn targets_are_prepared_then_checked_then_probed() {
    let target = target(ParameterOperation::Read, &[]);
    let mut programmer = Programmer::new();
    let mut waits = Waits::default();
    let ready = ready(&mut programmer, &mut waits, &target)
        .expect("target becomes ready");

    let mut expected = vec![0x87; 8];
    expected.extend_from_slice(&[0x08, 0x8a, 0x0c, 0x0f]);
    assert_eq!(programmer.codes(), expected);
    assert_eq!(waits.0, [100]);
    assert!(!ready.algorithm.reused());
    assert_eq!(ready.algorithm.identity().name(), "W25Q128");
    assert_eq!(ready.algorithm.completion_statuses(), [0x80; 9]);
    assert_eq!(ready.adapter.receipt.statuses(), [0x80]);
    assert_eq!(ready.probe.receipt.statuses(), [0x80]);
    assert_eq!(
        programmer.payloads.last().expect("parameters").as_slice(),
        target.parameters.as_bytes()
    );
}

#[test]
fn the_first_failure_ends_making_ready() {
    let target = target(ParameterOperation::Read, &[]);
    let mut waits = Waits::default();

    let mut programmer = Programmer::rejecting(0x87);
    assert!(matches!(
        ready(&mut programmer, &mut waits, &target),
        Err(ReadyError::Preparation(PrepareError::CompletionRejected { raw_status: 0x40, .. }))
    ));
    assert_eq!(programmer.codes(), [0x87]);
    assert!(waits.0.is_empty());

    let mut programmer = Programmer::rejecting(0x0c);
    assert!(matches!(
        ready(&mut programmer, &mut waits, &target),
        Err(ReadyError::AdapterCheck {
            error: OperationError::AdapterCheckRejected { raw_status: 0x40, .. },
            ..
        })
    ));
    assert_eq!(programmer.codes().last(), Some(&0x0c));

    let mut programmer = Programmer::rejecting(0x0f);
    assert!(matches!(
        ready(&mut programmer, &mut waits, &target),
        Err(ReadyError::TargetProbe {
            error: OperationError::TargetProbeRejected { raw_status: 0x40, .. },
            ..
        })
    ));
    assert_eq!(programmer.codes().last(), Some(&0x0f));
}

#[test]
fn projects_are_programmed_over_the_range_in_their_image() {
    let target = target(ParameterOperation::Program, &project());
    let image = target.parameters.as_bytes();
    let mut programmer = Programmer::new();
    program_project(&mut programmer, &NeverCancelled, &target, 0, 0).expect("programs");

    assert_eq!(image[0x56c..0x570], 0x1000_u32.to_le_bytes());
    assert_eq!(image[0x570..0x574], 0x800_u32.to_le_bytes());
    assert_eq!(programmer.commands[0][0x08..0x0c], image[0x56c..0x570]);
    assert_eq!(programmer.commands[0][0x0c..0x10], image[0x570..0x574]);
    let sent: Vec<u8> = programmer.payloads.concat();
    assert_eq!(hash(&sent).to_le_bytes(), image[0x574..0x578]);
    assert_eq!(programmer.memory[0x1010], 0x5a);
    assert_eq!(programmer.memory[0x1233], 0xa5);
    assert!(programmer.memory[..0x1010].iter().all(|byte| *byte == 0xff));
}

#[test]
fn what_was_programmed_verifies_and_changes_are_found() {
    let target = target(ParameterOperation::Verify, &project());
    let mut programmer = Programmer::new();
    program_project(&mut programmer, &NeverCancelled, &target, 0, 0).expect("programs");
    verify_project(&mut programmer, &NeverCancelled, &target, 0, 0).expect("verifies");

    programmer.memory[0x1233] = 0xa4;
    assert!(matches!(
        verify_project(&mut programmer, &NeverCancelled, &target, 0, 0),
        Err(OperationError::VerifyMismatch(VerifyMismatch {
            offset: 0x1233,
            expected: 0xa5,
            actual: 0xa4,
        }))
    ));
}

#[test]
fn projects_must_fit_and_hold_something() {
    let data = project();
    let target_with_data = target(ParameterOperation::Program, &data);
    assert_eq!(validate_project(&target_with_data, 0, data.len()), Ok(()));
    assert_eq!(
        validate_project(&target_with_data, 0, 0x4001),
        Err(RequestError::LengthExceedsRegion {
            length: 0x4001,
            region: 0,
            capacity: 0x4000,
        })
    );
    assert_eq!(
        validate_project(&target_with_data, 1, 1),
        Err(RequestError::RegionUnavailable { region: 1 })
    );
    let erased = target(ParameterOperation::Program, &[0xff; 32]);
    assert_eq!(
        validate_project(&erased, 0, 32),
        Err(RequestError::NoEffectiveRange)
    );
}

#[test]
fn backups_are_kept_only_if_they_are_flash_data() {
    let target = target(ParameterOperation::Read, &[]);
    let mut programmer = Programmer::new();
    programmer.memory[7] = 3;
    let read = read_backup(&mut programmer, &NeverCancelled, &target, 0, 0x400, 0)
        .expect("flash data is kept");
    assert_eq!(read.data, programmer.memory[..0x400]);

    assert!(matches!(
        read_backup(&mut programmer, &NeverCancelled, &target, 0, 0x1f, 0),
        Err(BackupError::Refused {
            reason: ReadbackError::TooShort { length: 0x1f },
            ..
        })
    ));
    programmer.payloads = vec![target.parameters.as_bytes().to_vec()];
    programmer.echo_parameters = true;
    match read_backup(&mut programmer, &NeverCancelled, &target, 0, 0x400, 0) {
        Err(BackupError::Refused {
            receipt,
            reason: ReadbackError::ParameterBuffer,
        }) => assert_eq!(receipt.statuses(), [0x80, 0x80]),
        other => panic!("unexpected {other:?}"),
    }
    assert!(matches!(
        read_backup(&mut programmer, &NeverCancelled, &target, 0, 0, 0),
        Err(BackupError::Operation(OperationError::Input(_)))
    ));
}

#[test]
fn blank_chunks_and_record_limits_are_bounded() {
    assert_eq!(validate_blank_chunk(0x800), Ok(()));
    assert_eq!(validate_blank_chunk(0x1_0000), Ok(()));
    assert_eq!(
        validate_blank_chunk(0x7ff),
        Err(RequestError::BlankChunk { chunk: 0x7ff })
    );
    assert_eq!(
        validate_blank_chunk(0x1_0001),
        Err(RequestError::BlankChunk { chunk: 0x1_0001 })
    );
    assert_eq!(validate_record_limit(0), Err(RequestError::NoRecords));
    assert_eq!(validate_record_limit(1), Ok(()));
}

#[test]
fn unnamed_values_stay_zero_in_the_image() {
    let target = target(ParameterOperation::Program, &project());
    let image = target.parameters.as_bytes();
    assert!(image[0x508..0x540].iter().all(|byte| *byte == 0));
    assert!(image[0x560..0x56c].iter().all(|byte| *byte == 0));
    assert!(image[0x590..0x7fc].iter().all(|byte| *byte == 0));
    assert_eq!(image[0x324..0x328], 0x111_u32.to_le_bytes());
}

#[test]
fn a_session_that_holds_the_algorithm_does_not_send_it_again() {
    let target = target(ParameterOperation::Read, &[]);
    let mut session = AlgorithmSession::new();
    let mut waits = Waits::default();
    let mut programmer = Programmer::new();
    make_ready(&mut session, &mut programmer, &mut waits, &NeverCancelled, &target)
        .expect("target becomes ready");
    programmer.commands.clear();
    let again = make_ready(&mut session, &mut programmer, &mut waits, &NeverCancelled, &target)
        .expect("target is ready again");
    assert!(again.algorithm.reused());
    assert_eq!(programmer.codes(), [0x08, 0x8a, 0x0c, 0x0f]);
    assert_eq!(waits.0, [100]);
}

#[test]
fn images_repeat_range_and_capacity() {
    let target = target(ParameterOperation::Program, &project());
    let image = target.parameters.as_bytes();
    assert_eq!(image[0x578..0x57c], 0x1000_u32.to_le_bytes());
    assert_eq!(image[0x57c..0x580], 0x800_u32.to_le_bytes());
    assert_eq!(image[0x584..0x588], 0x4000_u32.to_le_bytes());
    assert_eq!(image[0x58c..0x590], 0x4000_u32.to_le_bytes());
}

#[test]
fn a_changed_byte_is_found_by_its_checksum() {
    assert_eq!(hash(b"123456789"), 0xcbf4_3926);
    let file = algorithm_file("W25Q128");
    let image = target(ParameterOperation::Read, &[]).parameters.as_bytes().to_vec();
    assert!(Algorithm::parse(&file).is_ok());
    assert!(DeviceParameterImage::try_from_sprj(&image).is_ok());
    for index in (0..file.len()).step_by(97).chain([file.len() - 1]) {
        let mut changed = file.clone();
        changed[index] ^= 0x10;
        assert!(Algorithm::parse(&changed).is_err());
    }
    for index in (0..image.len()).step_by(31).chain([image.len() - 1]) {
        let mut changed = image.clone();
        changed[index] ^= 0x10;
        assert!(DeviceParameterImage::try_from_sprj(&changed).is_err());
    }
}

/// A programmer and a delay that write down what happens in one list: the codes
/// of commands, and 0 for a wait.
struct Watched {
    programmer: Programmer,
    events: Rc<RefCell<Vec<u16>>>,
}

struct WatchedDelay(Rc<RefCell<Vec<u16>>>);

impl Transport for Watched {
    type Error = &'static str;

    fn write_exact(
        &mut self,
        pipe: OutPipe,
        bytes: &[u8],
        options: TransferOptions<'_>,
    ) -> Result<(), Self::Error> {
        if pipe == OutPipe::Command {
            self.events
                .borrow_mut()
                .push(u16::from_le_bytes([bytes[0], bytes[1]]));
        }
        self.programmer.write_exact(pipe, bytes, options)
    }

    fn read_exact(
        &mut self,
        pipe: InPipe,
        bytes: &mut [u8],
        options: TransferOptions<'_>,
    ) -> Result<(), Self::Error> {
        self.programmer.read_exact(pipe, bytes, options)
    }
}

impl Delay for WatchedDelay {
    fn delay(&mut self, duration: u64) {
        assert_eq!(duration, 100);
        self.0.borrow_mut().push(0);
    }
}

#[test]
fn the_wait_lies_between_the_last_chunk_and_the_verification() {
    let target = target(ParameterOperation::Read, &[]);
    let events = Rc::new(RefCell::new(Vec::new()));
    let mut watched = Watched {
        programmer: Programmer::new(),
        events: Rc::clone(&events),
    };
    make_ready(
        &mut AlgorithmSession::new(),
        &mut watched,
        &mut WatchedDelay(Rc::clone(&events)),
        &NeverCancelled,
        &target,
    )
    .expect("target becomes ready");

    let mut expected = vec![0x87; 8];
    expected.extend_from_slice(&[0, 0x08, 0x8a, 0x0c, 0x0f]);
    assert_eq!(*events.borrow(), expected);
}
