//! USB identity of the programmers and descriptor inspection.

use vstd::prelude::*;

verus! {

pub const FLYPRO_VENDOR_ID: u16 = 0x5346;

pub const FLYPRO_PRODUCT_ID: u16 = 0x5109;

pub const REQUIRED_PIPE_ADDRESSES: [u8; 6] = [0x02, 0x03, 0x82, 0x83, 0x84, 0x85];

/// The addresses of the pipes that a programmer must have, in ascending order.
pub open spec fn required_addresses() -> Seq<u8> {
    seq![0x02u8, 0x03, 0x82, 0x83, 0x84, 0x85]
}

/// Information available without opening a matching programmer.
#[derive(Debug, Clone, PartialEq, Eq)]
pub struct UsbDeviceSummary {
    pub system_id: String,
    pub bus_id: String,
    pub device_address: u8,
    pub port_chain: Vec<u8>,
    pub vendor_id: u16,
    pub product_id: u16,
    pub usb_version_bcd: u16,
    pub device_version_bcd: u16,
    pub class: u8,
    pub subclass: u8,
    pub protocol: u8,
    pub speed: Option<String>,
    pub manufacturer: Option<String>,
    pub product: Option<String>,
    pub serial_number: Option<String>,
    pub interfaces: Vec<UsbInterfaceSummary>,
}

#[derive(Debug, Clone, PartialEq, Eq)]
pub struct UsbInterfaceSummary {
    pub interface_number: u8,
    pub class: u8,
    pub subclass: u8,
    pub protocol: u8,
    pub interface_string: Option<String>,
}

/// Descriptor report of an opened device.
#[derive(Debug, Clone, PartialEq, Eq)]
pub struct UsbDeviceReport {
    pub device: UsbDeviceSummary,
    pub device_descriptor_raw: Vec<u8>,
    pub active_configuration: Option<u8>,
    pub active_configuration_error: Option<String>,
    pub configurations: Vec<UsbConfigurationReport>,
}

#[derive(Debug, Clone, PartialEq, Eq)]
pub struct UsbConfigurationReport {
    pub configuration_value: u8,
    pub num_interfaces: u8,
    pub attributes: u8,
    pub max_power_milliamps: u16,
    pub raw_descriptor: Vec<u8>,
    pub interfaces: Vec<UsbInterfaceReport>,
}

#[derive(Debug, Clone, PartialEq, Eq)]
pub struct UsbInterfaceReport {
    pub interface_number: u8,
    pub alternate_setting: u8,
    pub declared_endpoint_count: u8,
    pub class: u8,
    pub subclass: u8,
    pub protocol: u8,
    pub endpoints: Vec<UsbEndpointReport>,
    pub flypro_pipe_validation: PipeValidation,
}

#[derive(Debug, Clone, PartialEq, Eq)]
pub struct UsbEndpointReport {
    pub address: u8,
    pub direction: EndpointDirection,
    pub transfer_type: EndpointTransferType,
    pub attributes: u8,
    pub max_packet_size: usize,
    pub max_packet_size_raw: u16,
    pub interval: u8,
    pub raw_descriptor: Vec<u8>,
}

#[derive(Debug, Clone, Copy, PartialEq, Eq, Structural)]
pub enum EndpointDirection {
    In,
    Out,
}

#[derive(Debug, Clone, Copy, PartialEq, Eq, Structural)]
pub enum EndpointTransferType {
    Control,
    Isochronous,
    Bulk,
    Interrupt,
}

/// Comparison of one interface setting against the six required pipe addresses.
#[derive(Debug, Clone, PartialEq, Eq)]
pub struct PipeValidation {
    pub complete: bool,
    pub present: Vec<u8>,
    pub missing: Vec<u8>,
    pub unexpected: Vec<u8>,
}

/// A validation is the comparison of the given addresses with the required ones:
/// each list holds every address once, in ascending order.
pub open spec fn validates(validation: PipeValidation, addresses: Seq<u8>) -> bool {
    &&& validation.present@ == required_addresses().filter(|a: u8| addresses.contains(a))
    &&& validation.missing@ == required_addresses().filter(|a: u8| !addresses.contains(a))
    &&& validation.unexpected@ == Seq::new(256, |i: int| i as u8).filter(
        |a: u8| addresses.contains(a) && !required_addresses().contains(a),
    )
    &&& validation.complete == (forall|i: int|
        0 <= i < 6 ==> addresses.contains(#[trigger] required_addresses()[i]))
}

/// The vendor and product that a programmer reports.
pub open spec fn is_flypro(vendor_id: u16, product_id: u16) -> bool {
    vendor_id == FLYPRO_VENDOR_ID && product_id == FLYPRO_PRODUCT_ID
}

/// The direction that an endpoint address states.
pub open spec fn direction_of(address: u8) -> EndpointDirection {
    if address < 0x80 {
        EndpointDirection::Out
    } else {
        EndpointDirection::In
    }
}

/// Whether a device is one of the programmers.
#[must_use]
pub fn is_flypro_device(vendor_id: u16, product_id: u16) -> (matching: bool)
    ensures
        matching == is_flypro(vendor_id, product_id),
{
    vendor_id == FLYPRO_VENDOR_ID && product_id == FLYPRO_PRODUCT_ID
}

/// The direction of the endpoint with an address: its highest bit is set for IN.
#[must_use]
pub fn endpoint_direction(address: u8) -> (direction: EndpointDirection)
    ensures
        direction == direction_of(address),
{
    if address < 0x80 {
        EndpointDirection::Out
    } else {
        EndpointDirection::In
    }
}

/// The current that a configuration descriptor asks for, in milliamperes. The
/// descriptor counts in units of two.
#[must_use]
pub fn power_milliamps(max_power: u8) -> (milliamps: u16)
    ensures
        milliamps == 2 * max_power,
{
    max_power as u16 * 2
}

/// Whether a list holds a byte.
fn holds(list: &[u8], byte: u8) -> (found: bool)
    ensures
        found == list@.contains(byte),
{
    let mut i: usize = 0;
    while i < list.len()
        invariant
            i <= list@.len(),
            forall|j: int| 0 <= j < i ==> list@[j] != byte,
        decreases list@.len() - i,
    {
        if list[i] == byte {
            assert(list@[i as int] == byte);
            return true;
        }
        i += 1;
    }
    false
}

/// Compares endpoint addresses with the required pipe addresses.
#[must_use]
pub fn validate_pipe_addresses(addresses: &[u8]) -> (validation: PipeValidation)
    ensures
        validates(validation, addresses@),
{
    let required: [u8; 6] = REQUIRED_PIPE_ADDRESSES;
    let ghost known = required_addresses();
    assert(required@ =~= known);
    let ghost is_present = |a: u8| addresses@.contains(a);
    let ghost is_missing = |a: u8| !addresses@.contains(a);
    let mut present: Vec<u8> = Vec::new();
    let mut missing: Vec<u8> = Vec::new();
    let mut i: usize = 0;
    proof {
        reveal(Seq::filter);
        assert(known.take(0).filter(is_present) =~= Seq::<u8>::empty());
        assert(known.take(0).filter(is_missing) =~= Seq::<u8>::empty());
    }
    while i < 6
        invariant
            i <= 6,
            required@ == known,
            known == required_addresses(),
            is_present == (|a: u8| addresses@.contains(a)),
            is_missing == (|a: u8| !addresses@.contains(a)),
            present@ == known.take(i as int).filter(is_present),
            missing@ == known.take(i as int).filter(is_missing),
            missing@.len() == 0 <==> (forall|j: int|
                0 <= j < i ==> addresses@.contains(#[trigger] known[j])),
        decreases 6 - i,
    {
        let address: u8 = required[i];
        proof {
            reveal(Seq::filter);
            assert(known.take(i + 1).drop_last() =~= known.take(i as int));
        }
        if holds(addresses, address) {
            present.push(address);
        } else {
            missing.push(address);
            assert(!addresses@.contains(known[i as int]));
        }
        i += 1;
    }
    assert(known.take(6) =~= known);
    let ghost values = Seq::new(256, |v: int| v as u8);
    let ghost is_unexpected = |a: u8| addresses@.contains(a) && !required_addresses().contains(a);
    let mut unexpected: Vec<u8> = Vec::new();
    let mut value: u16 = 0;
    proof {
        reveal(Seq::filter);
        assert(values.take(0).filter(is_unexpected) =~= Seq::<u8>::empty());
    }
    while value < 256
        invariant
            value <= 256,
            required@ == required_addresses(),
            values == Seq::new(256, |v: int| v as u8),
            is_unexpected == (|a: u8|
                addresses@.contains(a) && !required_addresses().contains(a)),
            unexpected@ == values.take(value as int).filter(is_unexpected),
        decreases 256 - value,
    {
        let address: u8 = value as u8;
        proof {
            reveal(Seq::filter);
            assert(values.take(value + 1).drop_last() =~= values.take(value as int));
            assert(values[value as int] == address);
        }
        if holds(addresses, address) && !holds(&required, address) {
            unexpected.push(address);
        }
        value += 1;
    }
    assert(values.take(256) =~= values);
    PipeValidation { complete: missing.len() == 0, present, missing, unexpected }
}

impl UsbEndpointReport {
    /// Reports an endpoint together with the direction that its address has.
    #[must_use]
    pub fn new(
        address: u8,
        transfer_type: EndpointTransferType,
        attributes: u8,
        max_packet_size: usize,
        max_packet_size_raw: u16,
        interval: u8,
        raw_descriptor: Vec<u8>,
    ) -> (report: Self)
        ensures
            report == (UsbEndpointReport {
                address,
                direction: direction_of(address),
                transfer_type,
                attributes,
                max_packet_size,
                max_packet_size_raw,
                interval,
                raw_descriptor,
            }),
    {
        UsbEndpointReport {
            address,
            direction: endpoint_direction(address),
            transfer_type,
            attributes,
            max_packet_size,
            max_packet_size_raw,
            interval,
            raw_descriptor,
        }
    }
}

impl UsbConfigurationReport {
    /// Reports a configuration, whose descriptor counts current in units of two
    /// milliamperes.
    #[must_use]
    pub fn new(
        configuration_value: u8,
        num_interfaces: u8,
        attributes: u8,
        max_power: u8,
        raw_descriptor: Vec<u8>,
        interfaces: Vec<UsbInterfaceReport>,
    ) -> (report: Self)
        ensures
            report == (UsbConfigurationReport {
                configuration_value,
                num_interfaces,
                attributes,
                max_power_milliamps: (2 * max_power) as u16,
                raw_descriptor,
                interfaces,
            }),
    {
        UsbConfigurationReport {
            configuration_value,
            num_interfaces,
            attributes,
            max_power_milliamps: power_milliamps(max_power),
            raw_descriptor,
            interfaces,
        }
    }
}

/// The addresses of endpoints.
pub open spec fn endpoint_addresses(endpoints: Seq<UsbEndpointReport>) -> Seq<u8> {
    endpoints.map_values(|endpoint: UsbEndpointReport| endpoint.address)
}

impl UsbInterfaceReport {
    /// Reports an interface setting together with the validation of its pipes.
    #[must_use]
    pub fn new(
        interface_number: u8,
        alternate_setting: u8,
        declared_endpoint_count: u8,
        class: u8,
        subclass: u8,
        protocol: u8,
        endpoints: Vec<UsbEndpointReport>,
    ) -> (report: Self)
        ensures
            report.interface_number == interface_number,
            report.alternate_setting == alternate_setting,
            report.declared_endpoint_count == declared_endpoint_count,
            report.class == class,
            report.subclass == subclass,
            report.protocol == protocol,
            report.endpoints == endpoints,
            validates(report.flypro_pipe_validation, endpoint_addresses(endpoints@)),
    {
        let mut addresses: Vec<u8> = Vec::new();
        let mut i: usize = 0;
        while i < endpoints.len()
            invariant
                i <= endpoints@.len(),
                addresses@ == endpoint_addresses(endpoints@).take(i as int),
            decreases endpoints@.len() - i,
        {
            addresses.push(endpoints[i].address);
            i += 1;
            assert(addresses@ =~= endpoint_addresses(endpoints@).take(i as int));
        }
        assert(addresses@ =~= endpoint_addresses(endpoints@));
        UsbInterfaceReport {
            interface_number,
            alternate_setting,
            declared_endpoint_count,
            class,
            subclass,
            protocol,
            flypro_pipe_validation: validate_pipe_addresses(addresses.as_slice()),
            endpoints,
        }
    }
}

/// A required address is either present or missing, never both, and a
/// validation is complete exactly if nothing is missing.
pub proof fn law_required_pipes_are_present_or_missing(
    validation: PipeValidation,
    addresses: Seq<u8>,
    address: u8,
)
    requires
        validates(validation, addresses),
        required_addresses().contains(address),
    ensures
        validation.present@.contains(address) <==> addresses.contains(address),
        validation.missing@.contains(address) <==> !addresses.contains(address),
        !validation.unexpected@.contains(address),
        validation.complete <==> validation.missing@.len() == 0,
{
    let known = required_addresses();
    let values = Seq::new(256, |i: int| i as u8);
    let is_present = |a: u8| addresses.contains(a);
    let is_missing = |a: u8| !addresses.contains(a);
    let is_unexpected = |a: u8| addresses.contains(a) && !required_addresses().contains(a);
    lemma_filter_membership(known, is_present, address);
    lemma_filter_membership(known, is_missing, address);
    lemma_filter_membership(values, is_unexpected, address);
    if validation.complete {
        if validation.missing@.len() > 0 {
            let first = validation.missing@[0];
            assert(validation.missing@.contains(first));
            lemma_filter_membership(known, is_missing, first);
            let at = choose|at: int| 0 <= at < known.len() && known[at] == first;
            assert(addresses.contains(known[at]));
        }
    } else {
        let at = choose|at: int|
            0 <= at < 6 && !addresses.contains(#[trigger] required_addresses()[at]);
        assert(known.contains(known[at]));
        lemma_filter_membership(known, is_missing, known[at]);
        assert(validation.missing@.contains(known[at]));
    }
}

proof fn lemma_filter_membership(list: Seq<u8>, keeps: spec_fn(u8) -> bool, byte: u8)
    ensures
        list.filter(keeps).contains(byte) <==> list.contains(byte) && keeps(byte),
{
    if list.filter(keeps).contains(byte) {
        list.lemma_filter_contains_rev(keeps, byte);
        let at = choose|at: int|
            0 <= at < list.filter(keeps).len() && list.filter(keeps)[at] == byte;
        list.lemma_filter_pred(keeps, at);
    }
    if list.contains(byte) && keeps(byte) {
        let at = choose|at: int| 0 <= at < list.len() && list[at] == byte;
        list.lemma_filter_contains(keeps, at);
    }
}

/// An address is one of the six pipes: 2 and 3 out, and 130 to 133 in.
pub open spec fn is_pipe(address: u8) -> bool {
    address == 2 || address == 3 || (130 <= address && address <= 133)
}

/// A validation lists the addresses of the six pipes that are there, those that are
/// not, and the addresses of no pipe, and is complete exactly if all six are there.
pub proof fn law_validations_sort_addresses(
    validation: PipeValidation,
    addresses: Seq<u8>,
    address: u8,
)
    requires
        validates(validation, addresses),
    ensures
        validation.present@.contains(address) <==> is_pipe(address) && addresses.contains(address),
        validation.missing@.contains(address) <==> is_pipe(address) && !addresses.contains(address),
        validation.unexpected@.contains(address) <==> !is_pipe(address) && addresses.contains(
            address,
        ),
        validation.complete <==> addresses.contains(2) && addresses.contains(3)
            && addresses.contains(130) && addresses.contains(131) && addresses.contains(132)
            && addresses.contains(133),
{
    let known = required_addresses();
    let values = Seq::new(256, |i: int| i as u8);
    let is_present = |a: u8| addresses.contains(a);
    let is_missing = |a: u8| !addresses.contains(a);
    let is_unexpected = |a: u8| addresses.contains(a) && !required_addresses().contains(a);
    lemma_pipes(address);
    lemma_filter_membership(known, is_present, address);
    lemma_filter_membership(known, is_missing, address);
    lemma_filter_membership(values, is_unexpected, address);
    assert(values[address as int] == address);
    assert(known[0] == 2 && known[1] == 3 && known[2] == 130 && known[3] == 131 && known[4] == 132
        && known[5] == 133);
}

proof fn lemma_pipes(address: u8)
    ensures
        required_addresses().contains(address) <==> is_pipe(address),
{
    let known = required_addresses();
    assert(known[0] == 2 && known[1] == 3 && known[2] == 130 && known[3] == 131 && known[4] == 132
        && known[5] == 133);
    if is_pipe(address) {
        let at: int = if address == 2 {
            0
        } else if address == 3 {
            1
        } else {
            address - 128
        };
        assert(known[at] == address);
    }
}

/// The highest bit of an address tells IN from OUT, whatever the number of the
/// endpoint.
pub proof fn law_addresses_state_directions(address: u8)
    ensures
        direction_of(address) is In <==> address & 0x80 != 0,
        direction_of(address) != direction_of(address ^ 0x80),
{
    assert(address < 0x80 <==> address & 0x80 == 0) by (bit_vector);
    assert(address ^ 0x80 < 0x80 <==> address & 0x80 != 0) by (bit_vector);
}

/// A programmer is told by both numbers: another device has a different vendor or a
/// different product.
pub proof fn law_programmers_are_told_by_both_numbers(
    vendor_id: u16,
    product_id: u16,
    other_vendor: u16,
    other_product: u16,
)
    requires
        is_flypro(vendor_id, product_id),
    ensures
        vendor_id == 0x5346 && product_id == 0x5109,
        is_flypro(other_vendor, other_product) <==> other_vendor == vendor_id && other_product
            == product_id,
{
}

} // verus!
