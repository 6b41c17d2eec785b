//! Text and figures that are shown to a user.

use vstd::prelude::*;
use vstd::seq_lib::seq_to_set_is_finite;
use vstd::string::*;

use crate::assets::device_db::{
    device_views, DeviceDatabase, DeviceRecord, DeviceRecordView,
};
use crate::assets::package_map::{PackageRecord, PackageRecordView};
use crate::text::{
    chars_of, decimal, digit_char, digit_value, folded, hex_digits, joined_hex,
    law_case_is_ignored_letter_by_letter, lower, push_decimal, push_hex, push_joined_hex,
    same_letter,
};

verus! {

/// Bytes as hexadecimal digits.
#[must_use]
pub fn encode_hex(bytes: &[u8]) -> (text: String)
    ensures
        text@ == joined_hex(bytes@, Seq::empty()),
{
    let mut text: String = String::new();
    let separator: [char; 0] = [];
    assert(separator@ =~= Seq::<char>::empty());
    push_joined_hex(&mut text, bytes, &separator);
    assert(text@ =~= joined_hex(bytes@, Seq::empty()));
    text
}

/// Completion bytes, each as two hexadecimal digits behind `0x`, with commas
/// between them.
pub open spec fn status_list(statuses: Seq<u8>) -> Seq<char>
    decreases statuses.len(),
{
    let last = seq!['0', 'x'] + hex_digits(statuses.last() as nat, 2);
    if statuses.len() == 0 {
        Seq::empty()
    } else if statuses.len() == 1 {
        last
    } else {
        status_list(statuses.drop_last()) + seq![','] + last
    }
}

/// Completion bytes as text.
#[must_use]
pub fn format_statuses(statuses: &[u8]) -> (text: String)
    ensures
        text@ == if statuses@.len() == 0 {
            "none"@
        } else {
            status_list(statuses@)
        },
{
    if statuses.len() == 0 {
        return "none".to_owned();
    }
    let mut text: String = String::new();
    let mut i: usize = 0;
    assert(text@ =~= status_list(statuses@.take(0)));
    while i < statuses.len()
        invariant
            i <= statuses@.len(),
            text@ == status_list(statuses@.take(i as int)),
        decreases statuses@.len() - i,
    {
        let ghost before = text@;
        if i > 0 {
            text.push(',');
        }
        text.push('0');
        text.push('x');
        push_hex(&mut text, statuses[i] as u64, 2);
        i += 1;
        proof {
            let now = statuses@.take(i as int);
            assert(now.drop_last() =~= statuses@.take(i - 1));
            assert(now.last() == statuses@[i - 1]);
            assert(text@ =~= status_list(now));
        }
    }
    assert(statuses@.take(i as int) =~= statuses@);
    text
}

/// A number with zeros before it, so that it has at least `width` digits.
pub open spec fn padded(value: nat, width: nat) -> Seq<char> {
    let digits = decimal(value);
    if digits.len() < width {
        Seq::new((width - digits.len()) as nat, |i: int| '0') + digits
    } else {
        digits
    }
}

/// The value of two binary-coded decimal digits.
pub open spec fn bcd_value(byte: u8) -> nat {
    (byte / 16) as nat * 10 + (byte % 16) as nat
}

/// A timestamp as date and time.
pub open spec fn timestamp_text(timestamp: Seq<u8>) -> Seq<char> {
    padded(bcd_value(timestamp[0]) * 100 + bcd_value(timestamp[1]), 4) + seq!['-'] + padded(
        bcd_value(timestamp[2]),
        2,
    ) + seq!['-'] + padded(bcd_value(timestamp[3]), 2) + seq![' '] + padded(
        bcd_value(timestamp[4]),
        2,
    ) + seq![':'] + padded(bcd_value(timestamp[5]), 2) + seq![':'] + padded(
        bcd_value(timestamp[6]),
        2,
    )
}

/// Numbers below a power of ten have at most that many digits.
proof fn lemma_decimal_length(value: nat)
    ensures
        decimal(value).len() >= 1,
        value < 10 ==> decimal(value).len() == 1,
        10 <= value < 100 ==> decimal(value).len() == 2,
        100 <= value < 1_000 ==> decimal(value).len() == 3,
        value >= 1_000 ==> decimal(value).len() >= 4,
    decreases value,
{
    if value >= 10 {
        lemma_decimal_length(value / 10);
        if value < 100 {
            assert(value / 10 < 10);
        } else if value < 1_000 {
            assert(10 <= value / 10 < 100);
        } else {
            assert(value / 10 >= 100);
            if value < 10_000 {
                assert(value / 10 < 1_000);
            } else {
                assert(value / 10 >= 1_000);
            }
        }
    }
}

/// Appends a number with at least two digits.
fn push_two(text: &mut String, value: u64)
    ensures
        final(text)@ == old(text)@ + padded(value as nat, 2),
{
    let ghost before = text@;
    proof {
        lemma_decimal_length(value as nat);
    }
    if value < 10 {
        text.push('0');
    }
    push_decimal(text, value);
    assert(text@ =~= before + padded(value as nat, 2));
}

/// Appends a number with at least four digits.
fn push_four(text: &mut String, value: u64)
    ensures
        final(text)@ == old(text)@ + padded(value as nat, 4),
{
    let ghost before = text@;
    proof {
        lemma_decimal_length(value as nat);
    }
    if value < 1_000 {
        text.push('0');
    }
    if value < 100 {
        text.push('0');
    }
    if value < 10 {
        text.push('0');
    }
    push_decimal(text, value);
    assert(text@ =~= before + padded(value as nat, 4));
}

fn bcd(byte: u8) -> (value: u64)
    ensures
        value == bcd_value(byte),
        value <= 165,
{
    (byte / 16) as u64 * 10 + (byte % 16) as u64
}

/// A timestamp as date and time.
#[must_use]
pub fn format_bcd_timestamp(timestamp: [u8; 8]) -> (text: String)
    ensures
        text@ == timestamp_text(timestamp@),
{
    let mut text: String = String::new();
    push_four(&mut text, bcd(timestamp[0]) * 100 + bcd(timestamp[1]));
    assert(text@ =~= padded(bcd_value(timestamp@[0]) * 100 + bcd_value(timestamp@[1]), 4));
    text.push('-');
    push_two(&mut text, bcd(timestamp[2]));
    text.push('-');
    push_two(&mut text, bcd(timestamp[3]));
    text.push(' ');
    push_two(&mut text, bcd(timestamp[4]));
    text.push(':');
    push_two(&mut text, bcd(timestamp[5]));
    text.push(':');
    push_two(&mut text, bcd(timestamp[6]));
    assert(text@ =~= timestamp_text(timestamp@));
    text
}

/// How a package route is described.
pub open spec fn package_text(package: PackageRecordView) -> Seq<char> {
    package.package_name + " (key "@ + decimal(package.key as nat) + ", type 0x"@ + hex_digits(
        package.package_type as nat,
        4,
    ) + ", adapter "@ + (if package.adapter_name.len() == 0 {
        "direct"@
    } else {
        package.adapter_name
    }) + seq![')']
}

/// Describes a package route.
#[must_use]
pub fn describe_package(package: &PackageRecord) -> (text: String)
    ensures
        text@ == package_text(package@),
{
    let mut text: String = package.package_name().to_owned();
    text.append(" (key ");
    push_decimal(&mut text, package.key() as u64);
    text.append(", type 0x");
    push_hex(&mut text, package.package_type() as u64, 4);
    text.append(", adapter ");
    if package.adapter_name().unicode_len() == 0 {
        text.append("direct");
    } else {
        text.append(package.adapter_name());
    }
    text.push(')');
    assert(text@ =~= package_text(package@));
    text
}

/// Package keys with commas between them.
pub open spec fn key_list(keys: Seq<u8>) -> Seq<char>
    decreases keys.len(),
{
    if keys.len() == 0 {
        Seq::empty()
    } else if keys.len() == 1 {
        decimal(keys[0] as nat)
    } else {
        key_list(keys.drop_last()) + seq![',', ' '] + decimal(keys.last() as nat)
    }
}

/// Package keys as text.
#[must_use]
pub fn format_keys(keys: &[u8]) -> (text: String)
    ensures
        text@ == key_list(keys@),
{
    let mut text: String = String::new();
    let mut i: usize = 0;
    assert(text@ =~= key_list(keys@.take(0)));
    while i < keys.len()
        invariant
            i <= keys@.len(),
            text@ == key_list(keys@.take(i as int)),
        decreases keys@.len() - i,
    {
        if i > 0 {
            text.push(',');
            text.push(' ');
        }
        push_decimal(&mut text, keys[i] as u64);
        i += 1;
        proof {
            let now = keys@.take(i as int);
            assert(now.drop_last() =~= keys@.take(i - 1));
            assert(now.last() == keys@[i - 1]);
            assert(text@ =~= key_list(now));
        }
    }
    assert(keys@.take(i as int) =~= keys@);
    text
}

/// The numbers of a list, each once and in ascending order.
#[must_use]
#[verifier::rlimit(50)]
pub fn distinct_versions(versions: &[u16]) -> (distinct: Vec<u16>)
    ensures
        forall|i: int, j: int| 0 <= i < j < distinct@.len() ==> distinct@[i] < distinct@[j],
        forall|version: u16|
            #![trigger distinct@.contains(version)]
            distinct@.contains(version) <==> versions@.contains(version),
{
    let mut distinct: Vec<u16> = Vec::new();
    let mut i: usize = 0;
    while i < versions.len()
        invariant
            i <= versions@.len(),
            forall|a: int, b: int| 0 <= a < b < distinct@.len() ==> distinct@[a] < distinct@[b],
            forall|version: u16|
                #![trigger distinct@.contains(version)]
                distinct@.contains(version) <==> versions@.take(i as int).contains(version),
        decreases versions@.len() - i,
    {
        let version: u16 = versions[i];
        let mut at: usize = 0;
        while at < distinct.len() && distinct[at] < version
            invariant
                at <= distinct@.len(),
                forall|a: int, b: int|
                    0 <= a < b < distinct@.len() ==> distinct@[a] < distinct@[b],
                forall|a: int| 0 <= a < at ==> distinct@[a] < version,
            decreases distinct@.len() - at,
        {
            at += 1;
        }
        let ghost before = distinct@;
        if at == distinct.len() || distinct[at] != version {
            distinct.insert(at, version);
        }
        i += 1;
        proof {
            let shorter = versions@.take(i - 1);
            let longer = versions@.take(i as int);
            assert(longer =~= shorter.push(version));
            assert forall|v: u16| #![trigger distinct@.contains(v)] distinct@.contains(v)
                <==> longer.contains(v) by {
                lemma_push_contains(shorter, version, v);
                if distinct@ != before {
                    lemma_insert_contains(before, at as int, version, v);
                } else {
                    assert(before[at as int] == version);
                    assert(before.contains(version));
                }
                assert(before.contains(v) <==> shorter.contains(v));
            }
        }
    }
    assert(versions@.take(i as int) =~= versions@);
    distinct
}

proof fn lemma_push_contains(list: Seq<u16>, added: u16, value: u16)
    ensures
        list.push(added).contains(value) <==> list.contains(value) || value == added,
{
    let longer = list.push(added);
    if list.contains(value) {
        let at = choose|at: int| 0 <= at < list.len() && list[at] == value;
        assert(longer[at] == value);
    }
    if value == added {
        assert(longer[list.len() as int] == value);
    }
}

proof fn lemma_insert_contains(list: Seq<u16>, position: int, added: u16, value: u16)
    requires
        0 <= position <= list.len(),
    ensures
        list.insert(position, added).contains(value) <==> list.contains(value) || value == added,
{
    let longer = list.insert(position, added);
    if list.contains(value) {
        let at = choose|at: int| 0 <= at < list.len() && list[at] == value;
        if at < position {
            assert(longer[at] == value);
        } else {
            assert(longer[at + 1] == value);
        }
    }
    if value == added {
        assert(longer[position] == value);
    }
    if longer.contains(value) && value != added {
        let at = choose|at: int| 0 <= at < longer.len() && longer[at] == value;
        if at < position {
            assert(list[at] == value);
        } else {
            assert(list[at - 1] == value);
        }
    }
}

/// Figures of a catalog.
#[derive(Debug, Clone, Copy, PartialEq, Eq, Structural)]
pub struct CatalogStatistics {
    /// Algorithm stems that differ in more than ASCII case.
    pub algorithm_stems: usize,
    /// Devices with a configuration stem.
    pub configuration_stems: usize,
}

/// The algorithm stems of devices in lower case.
pub open spec fn folded_stems(devices: Seq<DeviceRecordView>) -> Seq<Seq<char>> {
    devices.map_values(|device: DeviceRecordView| folded(device.algorithm_stem))
}

/// The devices with a configuration stem.
pub open spec fn configured(devices: Seq<DeviceRecordView>) -> Seq<DeviceRecordView> {
    devices.filter(|device: DeviceRecordView| device.configuration_stem is Some)
}

/// The algorithms, told apart without regard to case, and the configurations that
/// devices refer to.
pub open spec fn counts(statistics: CatalogStatistics, devices: Seq<DeviceRecordView>) -> bool {
    &&& statistics.algorithm_stems == folded_stems(devices).to_set().len()
    &&& statistics.configuration_stems == configured(devices).len()
}

/// The lower-case letters of a text.
fn folded_letters(text: &str) -> (letters: Vec<char>)
    ensures
        letters@ == folded(text@),
{
    let source: Vec<char> = chars_of(text);
    let mut letters: Vec<char> = Vec::new();
    let mut i: usize = 0;
    while i < source.len()
        invariant
            i <= source@.len(),
            source@ == text@,
            letters@ == folded(text@).take(i as int),
        decreases source@.len() - i,
    {
        letters.push(lower(source[i]));
        i += 1;
        assert(letters@ =~= folded(text@).take(i as int));
    }
    assert(letters@ =~= folded(text@));
    letters
}

fn equal_letters(left: &[char], right: &[char]) -> (equal: bool)
    ensures
        equal == (left@ == right@),
{
    if left.len() != right.len() {
        return false;
    }
    let mut i: usize = 0;
    while i < left.len()
        invariant
            i <= left@.len(),
            left@.len() == right@.len(),
            forall|j: int| 0 <= j < i ==> left@[j] == right@[j],
        decreases left@.len() - i,
    {
        if left[i] != right[i] {
            return false;
        }
        i += 1;
    }
    assert(left@ =~= right@);
    true
}

/// Counts the algorithms and configurations that a catalog refers to.
#[must_use]
#[verifier::rlimit(50)]
pub fn catalog_statistics(database: &DeviceDatabase) -> (statistics: CatalogStatistics)
    ensures
        counts(statistics, database@.devices),
{
    let devices: &[DeviceRecord] = database.devices();
    let ghost views = database@.devices;
    let ghost stems = folded_stems(views);
    let ghost keeps = |device: DeviceRecordView| device.configuration_stem is Some;
    let mut seen: Vec<Vec<char>> = Vec::new();
    let ghost mut names: Seq<Seq<char>> = Seq::empty();
    let mut with_configuration: usize = 0;
    let mut i: usize = 0;
    proof {
        reveal(Seq::filter);
        assert(views.take(0).filter(keeps).len() == 0);
        assert(names.to_set() =~= stems.take(0).to_set());
    }
    while i < devices.len()
        invariant
            i <= devices@.len(),
            device_views(devices@) == views,
            views == database@.devices,
            stems == folded_stems(views),
            keeps == (|device: DeviceRecordView| device.configuration_stem is Some),
            names.len() == seen@.len(),
            forall|k: int| 0 <= k < names.len() ==> #[trigger] names[k] == seen@[k]@,
            names.no_duplicates(),
            names.to_set() == stems.take(i as int).to_set(),
            with_configuration == views.take(i as int).filter(keeps).len(),
            with_configuration <= i,
        decreases devices@.len() - i,
    {
        let device: &DeviceRecord = &devices[i];
        assert(views[i as int] == device@);
        let stem: Vec<char> = folded_letters(device.algorithm_stem());
        assert(stems[i as int] == stem@);
        let mut known: bool = false;
        let mut k: usize = 0;
        while k < seen.len() && !known
            invariant
                k <= seen@.len(),
                names.len() == seen@.len(),
                forall|m: int| 0 <= m < names.len() ==> #[trigger] names[m] == seen@[m]@,
                known ==> names.contains(stem@),
                !known ==> forall|m: int| 0 <= m < k ==> names[m] != stem@,
            decreases seen@.len() - k + if known {
                0int
            } else {
                1
            },
        {
            if equal_letters(seen[k].as_slice(), stem.as_slice()) {
                assert(names[k as int] == stem@);
                known = true;
            } else {
                assert(names[k as int] != stem@);
                k += 1;
            }
        }
        proof {
            reveal(Seq::filter);
            assert(views.take(i + 1).drop_last() =~= views.take(i as int));
            let shorter = stems.take(i as int);
            let longer = stems.take(i + 1);
            assert(longer =~= shorter.push(stem@));
            assert(longer.to_set() =~= shorter.to_set().insert(stem@)) by {
                assert forall|s: Seq<char>| longer.to_set().contains(s) <==> shorter.to_set().insert(
                    stem@,
                ).contains(s) by {
                    lemma_stem_push(shorter, stem@, s);
                }
            }
        }
        if !known {
            proof {
                assert(!names.contains(stem@));
                let grown = names.push(stem@);
                assert(grown.to_set() =~= names.to_set().insert(stem@)) by {
                    assert forall|s: Seq<char>| grown.to_set().contains(s)
                        <==> names.to_set().insert(stem@).contains(s) by {
                        lemma_stem_push(names, stem@, s);
                    }
                }
                names = grown;
            }
            seen.push(stem);
        } else {
            assert(names.to_set().insert(stem@) =~= names.to_set());
        }
        if device.configuration_stem().is_some() {
            with_configuration += 1;
        }
        i += 1;
    }
    proof {
        assert(views.take(i as int) =~= views);
        assert(stems.take(i as int) =~= stems);
        names.unique_seq_to_set();
    }
    CatalogStatistics { algorithm_stems: seen.len(), configuration_stems: with_configuration }
}

proof fn lemma_stem_push(list: Seq<Seq<char>>, added: Seq<char>, value: Seq<char>)
    ensures
        list.push(added).to_set().contains(value) <==> list.to_set().contains(value) || value
            == added,
{
    let longer = list.push(added);
    if list.contains(value) {
        let at = choose|at: int| 0 <= at < list.len() && list[at] == value;
        assert(longer[at] == value);
    }
    if value == added {
        assert(longer[list.len() as int] == value);
    }
}

/// Hexadecimal text has two digits for each byte, of which the first one counts
/// sixteens.
pub proof fn law_hex_text_reads_back(bytes: Seq<u8>, index: int)
    requires
        0 <= index < bytes.len(),
    ensures
        ({
            let text = joined_hex(bytes, Seq::empty());
            &&& text.len() == 2 * bytes.len()
            &&& 16 * digit_value(text[2 * index]) + digit_value(text[2 * index + 1]) == bytes[index]
        }),
    decreases bytes.len(),
{
    let text = joined_hex(bytes, Seq::empty());
    let last = hex_digits(bytes.last() as nat, 2);
    reveal_with_fuel(hex_digits, 3);
    assert(last.len() == 2);
    assert(16 * digit_value(last[0]) + digit_value(last[1]) == bytes.last()) by {
        let value = bytes.last() as nat;
        assert(last[0] == digit_char(value / 16 % 16));
        assert(last[1] == digit_char(value % 16));
    }
    if bytes.len() > 1 {
        let start = bytes.drop_last();
        let before = joined_hex(start, Seq::empty());
        assert(text =~= before + last);
        if index < start.len() {
            law_hex_text_reads_back(start, index);
        } else {
            law_hex_text_reads_back(start, 0);
        }
    }
}

/// A timestamp whose bytes hold decimal digits is shown with those digits: four of the
/// year, and two each of month, day, hour, minute and second, with signs between them.
pub proof fn law_timestamps_show_their_digits(timestamp: Seq<u8>)
    requires
        timestamp.len() == 8,
        forall|i: int| 0 <= i < 7 ==> (#[trigger] timestamp[i]) / 16 <= 9 && timestamp[i] % 16 <= 9,
    ensures
        ({
            let text = timestamp_text(timestamp);
            &&& text.len() == 19
            &&& shows(text, 0, timestamp[0]) && shows(text, 2, timestamp[1])
            &&& shows(text, 5, timestamp[2]) && shows(text, 8, timestamp[3])
            &&& shows(text, 11, timestamp[4]) && shows(text, 14, timestamp[5])
            &&& shows(text, 17, timestamp[6])
            &&& text[4] == '-' && text[7] == '-' && text[10] == ' ' && text[13] == ':' && text[16]
                == ':'
        }),
{
    lemma_year_digits(timestamp[0], timestamp[1]);
    lemma_byte_digits(timestamp[2]);
    lemma_byte_digits(timestamp[3]);
    lemma_byte_digits(timestamp[4]);
    lemma_byte_digits(timestamp[5]);
    lemma_byte_digits(timestamp[6]);
    let year = year_digits(timestamp[0], timestamp[1]);
    let month = byte_digits(timestamp[2]);
    let day = byte_digits(timestamp[3]);
    let hour = byte_digits(timestamp[4]);
    let minute = byte_digits(timestamp[5]);
    let second = byte_digits(timestamp[6]);
    assert(timestamp_text(timestamp) == year + seq!['-'] + month + seq!['-'] + day + seq![' ']
        + hour + seq![':'] + minute + seq![':'] + second) by {
        reveal(year_digits);
        reveal(byte_digits);
    }
    lemma_joined(year, month, day, hour, minute, second);
}

/// A text shows the two decimal digits of a byte.
pub open spec fn shows(text: Seq<char>, at: int, byte: u8) -> bool {
    digit_value(text[at]) == byte / 16 && digit_value(text[at + 1]) == byte % 16
}

#[verifier::opaque]
spec fn byte_digits(byte: u8) -> Seq<char> {
    padded(bcd_value(byte), 2)
}

#[verifier::opaque]
spec fn year_digits(high: u8, low: u8) -> Seq<char> {
    padded(bcd_value(high) * 100 + bcd_value(low), 4)
}

proof fn lemma_byte_digits(byte: u8)
    requires
        byte / 16 <= 9,
        byte % 16 <= 9,
    ensures
        byte_digits(byte).len() == 2,
        shows(byte_digits(byte), 0, byte),
{
    reveal(byte_digits);
    lemma_two_digits(bcd_value(byte));
}

proof fn lemma_year_digits(high: u8, low: u8)
    requires
        high / 16 <= 9,
        high % 16 <= 9,
        low / 16 <= 9,
        low % 16 <= 9,
    ensures
        year_digits(high, low).len() == 4,
        shows(year_digits(high, low), 0, high),
        shows(year_digits(high, low), 2, low),
{
    reveal(year_digits);
    lemma_four_digits(bcd_value(high) * 100 + bcd_value(low));
}

proof fn lemma_joined(
    year: Seq<char>,
    month: Seq<char>,
    day: Seq<char>,
    hour: Seq<char>,
    minute: Seq<char>,
    second: Seq<char>,
)
    requires
        year.len() == 4,
        month.len() == 2,
        day.len() == 2,
        hour.len() == 2,
        minute.len() == 2,
        second.len() == 2,
    ensures
        ({
            let text = year + seq!['-'] + month + seq!['-'] + day + seq![' '] + hour + seq![':']
                + minute + seq![':'] + second;
            &&& text.len() == 19
            &&& text[0] == year[0] && text[1] == year[1] && text[2] == year[2] && text[3] == year[3]
            &&& text[5] == month[0] && text[6] == month[1]
            &&& text[8] == day[0] && text[9] == day[1]
            &&& text[11] == hour[0] && text[12] == hour[1]
            &&& text[14] == minute[0] && text[15] == minute[1]
            &&& text[17] == second[0] && text[18] == second[1]
            &&& text[4] == '-' && text[7] == '-' && text[10] == ' ' && text[13] == ':' && text[16]
                == ':'
        }),
{
}

proof fn lemma_two_digits(value: nat)
    requires
        value < 100,
    ensures
        padded(value, 2).len() == 2,
        digit_value(padded(value, 2)[0]) == value / 10,
        digit_value(padded(value, 2)[1]) == value % 10,
{
    lemma_decimal_length(value);
    reveal_with_fuel(decimal, 3);
}

proof fn lemma_four_digits(value: nat)
    requires
        value < 10_000,
    ensures
        padded(value, 4).len() == 4,
        digit_value(padded(value, 4)[0]) == value / 1_000,
        digit_value(padded(value, 4)[1]) == value / 100 % 10,
        digit_value(padded(value, 4)[2]) == value / 10 % 10,
        digit_value(padded(value, 4)[3]) == value % 10,
{
    lemma_decimal_length(value);
    reveal_with_fuel(decimal, 5);
}

/// One device more is one algorithm more if and only if no other device has a stem with
/// the same letters up to case, and one configuration more if and only if it has one.
pub proof fn law_statistics_grow_by_devices(
    devices: Seq<DeviceRecordView>,
    device: DeviceRecordView,
    before: CatalogStatistics,
    after: CatalogStatistics,
)
    requires
        counts(before, devices),
        counts(after, devices.push(device)),
    ensures
        after.algorithm_stems - before.algorithm_stems == if exists|i: int|
            0 <= i < devices.len() && same_text(
                (#[trigger] devices[i]).algorithm_stem,
                device.algorithm_stem,
            ) {
            0int
        } else {
            1
        },
        after.configuration_stems - before.configuration_stems
            == if device.configuration_stem is Some {
            1int
        } else {
            0
        },
        devices.len() == 0 ==> before.algorithm_stems == 0 && before.configuration_stems == 0,
{
    let stems = folded_stems(devices);
    let stem = folded(device.algorithm_stem);
    let more = devices.push(device);
    assert(folded_stems(more) =~= stems.push(stem));
    seq_to_set_is_finite(stems);
    assert(stems.push(stem).to_set() =~= stems.to_set().insert(stem)) by {
        assert forall|x: Seq<char>| stems.to_set().insert(stem).contains(x) implies stems.push(
            stem,
        ).contains(x) by {
            if x == stem {
                assert(stems.push(stem)[stems.len() as int] == stem);
            } else {
                let i = choose|i: int| 0 <= i < stems.len() && stems[i] == x;
                assert(stems.push(stem)[i] == x);
            }
        }
    }
    if exists|i: int|
        0 <= i < devices.len() && same_text(
            (#[trigger] devices[i]).algorithm_stem,
            device.algorithm_stem,
        ) {
        let i = choose|i: int|
            0 <= i < devices.len() && same_text(
                (#[trigger] devices[i]).algorithm_stem,
                device.algorithm_stem,
            );
        law_case_is_ignored_letter_by_letter(devices[i].algorithm_stem, device.algorithm_stem);
        assert(stems[i] == stem);
        assert(stems.contains(stem));
    } else if stems.contains(stem) {
        let i = choose|i: int| 0 <= i < stems.len() && stems[i] == stem;
        law_case_is_ignored_letter_by_letter(devices[i].algorithm_stem, device.algorithm_stem);
        assert(same_text(devices[i].algorithm_stem, device.algorithm_stem));
    }
    reveal(Seq::filter);
    assert(more.drop_last() =~= devices);
    assert(more.last() == device);
    if devices.len() == 0 {
        assert(stems.to_set() =~= Set::empty());
    }
}

/// Two texts have the same letters up to case.
pub open spec fn same_text(left: Seq<char>, right: Seq<char>) -> bool {
    left.len() == right.len() && forall|i: int|
        0 <= i < left.len() ==> same_letter(#[trigger] left[i], right[i])
}

/// Completion bytes are listed in their order, five characters apart: `0x`, the two
/// digits of the byte, and a comma before the next.
pub proof fn law_status_lists_show_every_byte(statuses: Seq<u8>, index: int)
    requires
        0 <= index < statuses.len(),
    ensures
        ({
            let text = status_list(statuses);
            &&& text.len() == 5 * statuses.len() - 1
            &&& text[5 * index] == '0' && text[5 * index + 1] == 'x'
            &&& 16 * digit_value(text[5 * index + 2]) + digit_value(text[5 * index + 3])
                == statuses[index]
            &&& index + 1 < statuses.len() ==> text[5 * index + 4] == ','
        }),
    decreases statuses.len(),
{
    let text = status_list(statuses);
    let digits = hex_digits(statuses.last() as nat, 2);
    let last = seq!['0', 'x'] + digits;
    reveal_with_fuel(hex_digits, 3);
    assert(digits.len() == 2);
    assert(16 * digit_value(digits[0]) + digit_value(digits[1]) == statuses.last()) by {
        let value = statuses.last() as nat;
        assert(digits[0] == digit_char(value / 16 % 16));
        assert(digits[1] == digit_char(value % 16));
    }
    if statuses.len() > 1 {
        let start = statuses.drop_last();
        let before = status_list(start);
        assert(text =~= before + seq![','] + last);
        if index < start.len() {
            law_status_lists_show_every_byte(start, index);
        } else {
            law_status_lists_show_every_byte(start, 0);
        }
    }
}

} // verus!
