//! Parser for the map from packages to adapters.
//!
//! A row is `key=type,package,adapter`, with a decimal key and a hexadecimal
//! type. Blank rows, comments and section headers are skipped, and so is a row
//! whose type is empty.

use std::collections::BTreeMap;

use vstd::prelude::*;
use vstd::slice::slice_subrange;

use crate::text::{
    all_digits, chars_of, decimal, digit_value, find, first_at, hex_digits, is_space,
    law_written_numbers_read_back, lemma_decimal_reads_back, lemma_hex_reads_back, number_up_to,
    parse_number, piece, piece_at, text_of, trim, trimmed,
};

verus! {

/// The contents of a package route.
pub struct PackageRecordView {
    pub key: u8,
    pub package_type: u16,
    pub package_name: Seq<char>,
    pub adapter_name: Seq<char>,
}

/// What one row adds to the routes, or why it is refused.
pub open spec fn parsed_row(
    row: Seq<char>,
    line: nat,
    routes: Map<u8, PackageRecordView>,
) -> Result<Map<u8, PackageRecordView>, PackageMapError> {
    let text = trimmed(row);
    let sign = first_at(text, '=') as int;
    let key = number_up_to(trimmed(text.take(sign)), 10, 0xff);
    let value = text.skip(sign + 1);
    let raw_type = trimmed(piece_at(value, ',', 0));
    let package_type = number_up_to(raw_type, 16, 0xffff);
    if text.len() == 0 || text[0] == ';' || text[0] == '[' {
        Ok(routes)
    } else if sign >= text.len() {
        Err(PackageMapError::InvalidLine { line: line as usize })
    } else if key is None {
        Err(PackageMapError::InvalidKey { line: line as usize })
    } else if raw_type.len() == 0 {
        Ok(routes)
    } else if package_type is None {
        Err(PackageMapError::InvalidType { line: line as usize })
    } else if routes.contains_key(key.unwrap() as u8) {
        Err(PackageMapError::DuplicateKey { key: key.unwrap() as u8 })
    } else {
        Ok(
            routes.insert(
                key.unwrap() as u8,
                PackageRecordView {
                    key: key.unwrap() as u8,
                    package_type: package_type.unwrap() as u16,
                    package_name: trimmed(piece_at(value, ',', 1)),
                    adapter_name: trimmed(piece_at(value, ',', 2)),
                },
            ),
        )
    }
}

/// What the rows of a text add to the routes, where `line` is the number of the
/// first row, or why the first bad row is refused.
pub open spec fn parsed_rows(
    text: Seq<char>,
    line: nat,
    routes: Map<u8, PackageRecordView>,
) -> Result<Map<u8, PackageRecordView>, PackageMapError>
    decreases text.len(),
{
    if text.len() == 0 {
        Ok(routes)
    } else {
        let end = first_at(text, '\n') as int;
        match parsed_row(text.take(end), line, routes) {
            Err(error) => Err(error),
            Ok(extended) => if end >= text.len() {
                Ok(extended)
            } else {
                parsed_rows(text.skip(end + 1), line + 1, extended)
            },
        }
    }
}

/// The routes that a map text states, or why it is refused.
pub open spec fn parsed_map(text: Seq<char>) -> Result<
    Map<u8, PackageRecordView>,
    PackageMapError,
> {
    parsed_rows(text, 1, Map::empty())
}

/// One package route.
#[derive(Debug, Clone, PartialEq, Eq)]
pub struct PackageRecord {
    key: u8,
    package_type: u16,
    package_name: String,
    adapter_name: String,
}

impl View for PackageRecord {
    type V = PackageRecordView;

    closed spec fn view(&self) -> PackageRecordView {
        PackageRecordView {
            key: self.key,
            package_type: self.package_type,
            package_name: self.package_name@,
            adapter_name: self.adapter_name@,
        }
    }
}

impl PackageRecord {
    #[must_use]
    pub fn key(&self) -> (key: u8)
        ensures
            key == self@.key,
    {
        self.key
    }

    #[must_use]
    pub fn package_type(&self) -> (package_type: u16)
        ensures
            package_type == self@.package_type,
    {
        self.package_type
    }

    #[must_use]
    pub fn package_name(&self) -> (name: &str)
        ensures
            name@ == self@.package_name,
    {
        self.package_name.as_str()
    }

    #[must_use]
    pub fn adapter_name(&self) -> (name: &str)
        ensures
            name@ == self@.adapter_name,
    {
        self.adapter_name.as_str()
    }
}

/// The contents of routes.
pub open spec fn route_views(records: Map<u8, PackageRecord>) -> Map<u8, PackageRecordView> {
    records.map_values(|record: PackageRecord| record@)
}

/// The routes with keys below a bound, in the order of their keys.
pub open spec fn routes_below(
    routes: Map<u8, PackageRecordView>,
    bound: nat,
) -> Seq<PackageRecordView>
    decreases bound,
{
    if bound == 0 {
        Seq::empty()
    } else {
        let key = (bound - 1) as u8;
        let before = routes_below(routes, (bound - 1) as nat);
        if routes.contains_key(key) {
            before.push(routes[key])
        } else {
            before
        }
    }
}

/// Valid package routes by the decimal package key that devices refer to.
#[derive(Debug, Clone, PartialEq, Eq)]
pub struct PackageMap {
    records: BTreeMap<u8, PackageRecord>,
}

impl View for PackageMap {
    type V = Map<u8, PackageRecordView>;

    closed spec fn view(&self) -> Map<u8, PackageRecordView> {
        route_views(self.records@)
    }
}

impl PackageMap {
    /// Parses a map text.
    ///
    /// # Errors
    ///
    /// Returns [`PackageMapError`] for the first malformed or duplicate row.
    pub fn parse(text: &str) -> (result: Result<Self, PackageMapError>)
        ensures
            match (result, parsed_map(text@)) {
                (Ok(map), Ok(routes)) => map@ == routes,
                (Err(error), Err(reason)) => error == reason,
                _ => false,
            },
    {
        let letters: Vec<char> = chars_of(text);
        let mut map = PackageMap { records: BTreeMap::new() };
        let mut start: usize = 0;
        let mut rows: usize = 0;
        assert(map@ =~= Map::<u8, PackageRecordView>::empty());
        assert(letters@.skip(0) =~= text@);
        while start < letters.len()
            invariant
                rows <= start <= letters@.len(),
                letters@ == text@,
                parsed_map(text@) == parsed_rows(
                    letters@.skip(start as int),
                    (rows + 1) as nat,
                    map@,
                ),
            decreases letters@.len() - start,
        {
            let ghost rest = letters@.skip(start as int);
            assert(letters@.subrange(start as int, letters@.len() as int) =~= rest);
            let remaining: &[char] = slice_subrange(letters.as_slice(), start, letters.len());
            let end: usize = find(remaining, '\n');
            assert(rest.subrange(0, end as int) =~= rest.take(end as int));
            map.add_row(slice_subrange(remaining, 0, end), rows + 1)?;
            if end == remaining.len() {
                return Ok(map);
            }
            assert(rest.skip(end + 1) =~= letters@.skip(start + end + 1));
            start = start + end + 1;
            rows += 1;
        }
        Ok(map)
    }

    fn add_row(&mut self, row: &[char], line: usize) -> (result: Result<(), PackageMapError>)
        ensures
            match (result, parsed_row(row@, line as nat, old(self)@)) {
                (Ok(_), Ok(routes)) => final(self)@ == routes,
                (Err(error), Err(reason)) => error == reason,
                _ => false,
            },
    {
        let text: &[char] = trim(row);
        if text.len() == 0 || text[0] == ';' || text[0] == '[' {
            return Ok(());
        }
        let sign: usize = find(text, '=');
        if sign >= text.len() {
            return Err(PackageMapError::InvalidLine { line });
        }
        assert(text@.subrange(0, sign as int) =~= text@.take(sign as int));
        assert(text@.subrange(sign + 1, text@.len() as int) =~= text@.skip(sign + 1));
        let key: u8 = match parse_number(trim(slice_subrange(text, 0, sign)), 10, 0xff) {
            Some(key) => key as u8,
            None => { return Err(PackageMapError::InvalidKey { line }) },
        };
        let value: &[char] = slice_subrange(text, sign + 1, text.len());
        let raw_type: &[char] = trim(piece(value, ',', 0));
        if raw_type.len() == 0 {
            return Ok(());
        }
        let package_type: u16 = match parse_number(raw_type, 16, 0xffff) {
            Some(package_type) => package_type as u16,
            None => { return Err(PackageMapError::InvalidType { line }) },
        };
        if self.records.contains_key(&key) {
            return Err(PackageMapError::DuplicateKey { key });
        }
        let record = PackageRecord {
            key,
            package_type,
            package_name: text_of(trim(piece(value, ',', 1))),
            adapter_name: text_of(trim(piece(value, ',', 2))),
        };
        let ghost before = self.records@;
        self.records.insert(key, record);
        assert(route_views(before.insert(key, record)) =~= route_views(before).insert(
            key,
            record@,
        ));
        Ok(())
    }

    #[must_use]
    pub fn get(&self, key: u8) -> (record: Option<&PackageRecord>)
        ensures
            match record {
                Some(record) => self@.contains_key(key) && record@ == self@[key],
                None => !self@.contains_key(key),
            },
    {
        self.records.get(&key)
    }

    /// The routes in the order of their keys.
    #[must_use]
    pub fn records(&self) -> (records: Vec<&PackageRecord>)
        ensures
            records@.map_values(|record: &PackageRecord| record@) == routes_below(self@, 256),
    {
        let ghost view = |record: &PackageRecord| record@;
        let mut records: Vec<&PackageRecord> = Vec::new();
        let mut bound: u16 = 0;
        assert(records@.map_values(view) =~= routes_below(self@, 0));
        while bound < 256
            invariant
                bound <= 256,
                view == (|record: &PackageRecord| record@),
                records@.map_values(view) == routes_below(self@, bound as nat),
            decreases 256 - bound,
        {
            let ghost before = records@;
            if let Some(record) = self.get(bound as u8) {
                records.push(record);
                assert(records@.map_values(view) =~= before.map_values(view).push(record@));
            }
            bound += 1;
        }
        records
    }
}

/// Reasons to refuse a map text.
#[derive(Debug, Clone, Copy, PartialEq, Eq, Structural)]
pub enum PackageMapError {
    InvalidLine { line: usize },
    InvalidKey { line: usize },
    InvalidType { line: usize },
    DuplicateKey { key: u8 },
}

/// Every route stands under its own key.
pub proof fn law_routes_stand_under_their_keys(text: Seq<char>, key: u8)
    requires
        parsed_map(text) is Ok,
        parsed_map(text)->Ok_0.contains_key(key),
    ensures
        parsed_map(text)->Ok_0[key].key == key,
{
    lemma_rows_keep_keys(text, 1, Map::empty());
}

proof fn lemma_rows_keep_keys(text: Seq<char>, line: nat, routes: Map<u8, PackageRecordView>)
    requires
        forall|key: u8| #[trigger] routes.contains_key(key) ==> routes[key].key == key,
        parsed_rows(text, line, routes) is Ok,
    ensures
        forall|key: u8| #[trigger]
            parsed_rows(text, line, routes)->Ok_0.contains_key(key) ==> parsed_rows(
                text,
                line,
                routes,
            )->Ok_0[key].key == key,
        forall|key: u8| #[trigger]
            routes.contains_key(key) ==> parsed_rows(text, line, routes)->Ok_0.contains_key(key)
                && parsed_rows(text, line, routes)->Ok_0[key] == routes[key],
    decreases text.len(),
{
    if text.len() > 0 {
        let end = first_at(text, '\n') as int;
        let extended = parsed_row(text.take(end), line, routes)->Ok_0;
        assert forall|key: u8| #[trigger] routes.contains_key(key) implies extended.contains_key(
            key,
        ) && extended[key] == routes[key] by {}
        if end < text.len() {
            lemma_rows_keep_keys(text.skip(end + 1), line + 1, extended);
            assert forall|key: u8| #[trigger] routes.contains_key(key) implies parsed_rows(
                text,
                line,
                routes,
            )->Ok_0.contains_key(key) && parsed_rows(text, line, routes)->Ok_0[key]
                == routes[key] by {
                assert(extended.contains_key(key));
            }
        }
    }
}

proof fn lemma_first_at(text: Seq<char>, letter: char, at: int)
    requires
        0 <= at <= text.len(),
        forall|i: int| 0 <= i < at ==> #[trigger] text[i] != letter,
        at < text.len() ==> text[at] == letter,
    ensures
        first_at(text, letter) == at,
    decreases at,
{
    if at > 0 {
        assert(text[0] != letter);
        let rest = text.skip(1);
        assert forall|i: int| 0 <= i < at - 1 implies #[trigger] rest[i] != letter by {
            assert(rest[i] == text[i + 1]);
        }
        lemma_first_at(rest, letter, at - 1);
    }
}

proof fn lemma_trimmed(text: Seq<char>)
    requires
        text.len() > 0 ==> !is_space(text[0]) && !is_space(text.last()),
    ensures
        trimmed(text) == text,
{
}

/// A text with no comma, and no white space at its ends.
pub open spec fn is_plain(text: Seq<char>) -> bool {
    &&& forall|i: int| 0 <= i < text.len() ==> #[trigger] text[i] != ',' && text[i] != '\n'
    &&& text.len() > 0 ==> !is_space(text[0]) && !is_space(text.last())
}

/// How a route is written: the key in decimal, and behind a sign the type in four
/// hexadecimal digits, the package and the adapter, with commas between them.
pub open spec fn written_route(route: PackageRecordView) -> Seq<char> {
    decimal(route.key as nat) + seq!['='] + hex_digits(route.package_type as nat, 4) + seq![',']
        + route.package_name + seq![','] + route.adapter_name
}

/// A row that is written from a route adds that route under its key, and refuses a
/// key that is there already.
#[verifier::rlimit(60)]
pub proof fn law_written_routes_are_read(
    route: PackageRecordView,
    line: nat,
    routes: Map<u8, PackageRecordView>,
)
    requires
        is_plain(route.package_name),
        is_plain(route.adapter_name),
    ensures
        parsed_row(written_route(route), line, routes) == if routes.contains_key(route.key) {
            Err::<Map<u8, PackageRecordView>, PackageMapError>(
                PackageMapError::DuplicateKey { key: route.key },
            )
        } else {
            Ok(routes.insert(route.key, route))
        },
{
    let row = written_route(route);
    let key = decimal(route.key as nat);
    let kind = hex_digits(route.package_type as nat, 4);
    law_written_numbers_read_back(route.key as nat, 4);
    assert(vstd::arithmetic::power::pow(16, 4) == 0x1_0000) by {
        reveal_with_fuel(vstd::arithmetic::power::pow, 5);
    }
    law_written_numbers_read_back(route.package_type as nat, 4);
    lemma_digits_are_plain(key, 10);
    lemma_digits_are_plain(kind, 16);
    lemma_decimal_reads_back(route.key as nat);
    lemma_hex_reads_back(route.package_type as nat, 4);
    assert(row[0] == key[0]);
    assert(row.last() == if route.adapter_name.len() > 0 {
        route.adapter_name.last()
    } else {
        ','
    });
    lemma_trimmed(row);
    let sign = key.len() as int;
    assert(row[sign] == '=');
    assert forall|i: int| 0 <= i < sign implies #[trigger] row[i] != '=' by {
        assert(row[i] == key[i]);
    }
    lemma_first_at(row, '=', sign);
    assert(row.take(sign) =~= key);
    lemma_trimmed(key);
    let value = row.skip(sign + 1);
    assert(value =~= kind + seq![','] + route.package_name + seq![','] + route.adapter_name);
    assert(value[4] == ',');
    assert forall|i: int| 0 <= i < 4 implies #[trigger] value[i] != ',' by {
        assert(value[i] == kind[i]);
    }
    lemma_first_at(value, ',', 4);
    assert(value.take(4) =~= kind);
    lemma_trimmed(kind);
    let second = value.skip(5);
    let size = route.package_name.len() as int;
    assert(second =~= route.package_name + seq![','] + route.adapter_name);
    assert(second[size] == ',');
    assert forall|i: int| 0 <= i < size implies #[trigger] second[i] != ',' by {
        assert(second[i] == route.package_name[i]);
    }
    lemma_first_at(second, ',', size);
    assert(second.take(size) =~= route.package_name);
    let third = second.skip(size + 1);
    assert(third =~= route.adapter_name);
    lemma_first_at(third, ',', third.len() as int);
    assert(third.take(third.len() as int) =~= third);
    reveal_with_fuel(piece_at, 4);
    assert(piece_at(value, ',', 0) == kind);
    assert(piece_at(value, ',', 1) == route.package_name);
    assert(piece_at(value, ',', 2) == route.adapter_name);
    lemma_trimmed(route.package_name);
    lemma_trimmed(route.adapter_name);
}

/// Digits are neither white space nor any of the signs of a row.
proof fn lemma_digits_are_plain(digits: Seq<char>, radix: nat)
    requires
        radix <= 16,
    ensures
        all_digits(digits, radix) ==> forall|i: int|
            0 <= i < digits.len() ==> !is_space(#[trigger] digits[i]) && digits[i] != ','
                && digits[i] != '=' && digits[i] != ';' && digits[i] != '[',
{
    if all_digits(digits, radix) {
        assert forall|i: int| 0 <= i < digits.len() implies !is_space(#[trigger] digits[i])
            && digits[i] != ',' && digits[i] != '=' && digits[i] != ';' && digits[i] != '[' by {
            assert(digit_value(digits[i]) < radix);
        }
    }
}

/// The rows of a text are read one behind the other: what a first row adds is there
/// for the rows behind it, which begin in the next line.
pub proof fn law_rows_are_read_in_order(
    row: Seq<char>,
    rest: Seq<char>,
    line: nat,
    routes: Map<u8, PackageRecordView>,
)
    requires
        forall|i: int| 0 <= i < row.len() ==> #[trigger] row[i] != '\n',
    ensures
        parsed_rows(row + seq!['\n'] + rest, line, routes) == match parsed_row(row, line, routes) {
            Ok(extended) => parsed_rows(rest, line + 1, extended),
            Err(error) => Err(error),
        },
{
    let text = row + seq!['\n'] + rest;
    let end = row.len() as int;
    assert(text[end] == '\n');
    assert forall|i: int| 0 <= i < end implies #[trigger] text[i] != '\n' by {
        assert(text[i] == row[i]);
    }
    lemma_first_at(text, '\n', end);
    assert(text.take(end) =~= row);
    assert(text.skip(end + 1) =~= rest);
}

} // verus!
