//! Text as sequences of characters: case folding, numbers and decoding.

use vstd::prelude::*;
use vstd::string::*;

verus! {

/// Appends one character, as `String::push` documents.
pub assume_specification[ String::push ](text: &mut String, letter: char)
    ensures
        final(text)@ == old(text)@.push(letter),
;

/// Decodes UTF-8 with `core::str::from_utf8`: it succeeds exactly on valid
/// UTF-8, and the text is what the bytes decode to.
#[verifier::external_body]
pub(crate) fn utf8_text(bytes: &[u8]) -> (text: Option<String>)
    ensures
        text.is_some() <==> vstd::utf8::valid_utf8(bytes@),
        text matches Some(decoded) ==> decoded@ == vstd::utf8::decode_utf8(bytes@),
{
    match core::str::from_utf8(bytes) {
        Ok(decoded) => Some(decoded.to_owned()),
        Err(_) => None,
    }
}

/// What `String::from_utf8_lossy` makes of bytes.
pub uninterp spec fn lossy_text(bytes: Seq<u8>) -> Seq<char>;

/// Decodes with `String::from_utf8_lossy`. On valid UTF-8 the text is what the
/// bytes decode to; where else the replacement characters stand is left unsaid.
#[verifier::external_body]
pub(crate) fn decode_lossy(bytes: &[u8]) -> (text: String)
    ensures
        text@ == lossy_text(bytes@),
        vstd::utf8::valid_utf8(bytes@) ==> text@ == vstd::utf8::decode_utf8(bytes@),
{
    String::from_utf8_lossy(bytes).into_owned()
}

/// The lower-case form of an ASCII letter; any other character is itself.
pub open spec fn ascii_lower(letter: char) -> char {
    if 'A' <= letter && letter <= 'Z' {
        ((letter as u8 + 32) as u8) as char
    } else {
        letter
    }
}

/// A text with its ASCII letters in lower case.
pub open spec fn folded(text: Seq<char>) -> Seq<char> {
    text.map_values(|letter: char| ascii_lower(letter))
}

/// Two texts differ at most in the case of ASCII letters.
pub open spec fn same_ignoring_case(left: Seq<char>, right: Seq<char>) -> bool {
    folded(left) == folded(right)
}

/// A text occurs in another one up to ASCII case.
pub open spec fn occurs_ignoring_case(needle: Seq<char>, text: Seq<char>) -> bool {
    exists|i: int|
        0 <= i <= text.len() - needle.len() && #[trigger] folded(text).subrange(
            i,
            i + needle.len(),
        ) == folded(needle)
}

/// Every character is an ASCII character.
pub open spec fn is_ascii_text(text: Seq<char>) -> bool {
    vstd::utf8::is_ascii_chars(text)
}

/// Every byte is an ASCII character.
pub open spec fn is_ascii_bytes(bytes: Seq<u8>) -> bool {
    forall|i: int| 0 <= i < bytes.len() ==> #[trigger] bytes[i] < 0x80
}

/// The characters with the given codes.
pub open spec fn chars_of_bytes(bytes: Seq<u8>) -> Seq<char> {
    bytes.map_values(|byte: u8| byte as char)
}

/// The codes of ASCII characters.
pub open spec fn bytes_of_chars(text: Seq<char>) -> Seq<u8> {
    text.map_values(|letter: char| letter as u8)
}

/// The digit for a value below sixteen.
pub open spec fn digit_char(value: nat) -> char {
    if value < 10 {
        ((48 + value) as u8) as char
    } else {
        ((87 + value) as u8) as char
    }
}

/// Decimal digits without leading zeros.
pub open spec fn decimal(value: nat) -> Seq<char>
    decreases value,
{
    if value < 10 {
        seq![digit_char(value)]
    } else {
        decimal(value / 10).push(digit_char(value % 10))
    }
}

/// The last `width` lower-case hexadecimal digits.
pub open spec fn hex_digits(value: nat, width: nat) -> Seq<char>
    decreases width,
{
    if width == 0 {
        Seq::empty()
    } else {
        hex_digits(value / 16, (width - 1) as nat).push(digit_char(value % 16))
    }
}

/// Eight hexadecimal digits behind `0x`.
pub open spec fn prefixed_hex(value: u32) -> Seq<char> {
    seq!['0', 'x'] + hex_digits(value as nat, 8)
}

/// Two hexadecimal digits a byte, with a separator between bytes.
pub open spec fn joined_hex(bytes: Seq<u8>, separator: Seq<char>) -> Seq<char>
    decreases bytes.len(),
{
    if bytes.len() == 0 {
        Seq::empty()
    } else if bytes.len() == 1 {
        hex_digits(bytes[0] as nat, 2)
    } else {
        joined_hex(bytes.drop_last(), separator) + separator + hex_digits(bytes.last() as nat, 2)
    }
}

/// Bytes as a bracketed list of two-digit numbers.
pub open spec fn hex_list(bytes: Seq<u8>) -> Seq<char> {
    seq!['['] + joined_hex(bytes, seq![',', ' ']) + seq![']']
}

/// The codes of ASCII characters give the characters back.
pub proof fn lemma_ascii_codes_are_lossless(text: Seq<char>)
    requires
        is_ascii_text(text),
    ensures
        chars_of_bytes(bytes_of_chars(text)) == text,
{
    assert forall|i: int| 0 <= i < text.len() implies chars_of_bytes(bytes_of_chars(text))[i]
        == text[i] by {
        let letter = text[i];
        assert((letter as u8) as char == letter);
    }
    assert(chars_of_bytes(bytes_of_chars(text)) =~= text);
}

/// Case-insensitive equality is an equivalence.
pub proof fn lemma_case_is_an_equivalence(a: Seq<char>, b: Seq<char>, c: Seq<char>)
    ensures
        same_ignoring_case(a, a),
        same_ignoring_case(a, b) ==> same_ignoring_case(b, a),
        same_ignoring_case(a, b) && same_ignoring_case(b, c) ==> same_ignoring_case(a, c),
        same_ignoring_case(a, b) ==> a.len() == b.len(),
{
    assert(folded(a).len() == a.len());
    assert(folded(b).len() == b.len());
}

/// The characters of a text.
pub(crate) fn chars_of(text: &str) -> (letters: Vec<char>)
    ensures
        letters@ == text@,
{
    let mut letters: Vec<char> = Vec::new();
    for letter in it: text.chars()
        invariant
            letters@ == text@.take(it.index()),
            it.seq() == text@,
    {
        letters.push(letter);
        assert(letters@ =~= text@.take(it.index() + 1));
    }
    assert(text@.take(text@.len() as int) =~= text@);
    letters
}

/// The text with the given characters.
pub(crate) fn text_of(letters: &[char]) -> (text: String)
    ensures
        text@ == letters@,
{
    let mut text: String = String::new();
    let mut i: usize = 0;
    assert(text@ =~= letters@.take(0));
    while i < letters.len()
        invariant
            i <= letters@.len(),
            text@ == letters@.take(i as int),
        decreases letters@.len() - i,
    {
        text.push(letters[i]);
        i += 1;
        assert(text@ =~= letters@.take(i as int));
    }
    assert(letters@.take(i as int) =~= letters@);
    text
}

/// The text whose characters have the given codes.
pub(crate) fn text_of_bytes(bytes: &[u8]) -> (text: String)
    ensures
        text@ == chars_of_bytes(bytes@),
{
    let mut text: String = String::new();
    let mut i: usize = 0;
    assert(text@ =~= chars_of_bytes(bytes@.take(0)));
    while i < bytes.len()
        invariant
            i <= bytes@.len(),
            text@ == chars_of_bytes(bytes@.take(i as int)),
        decreases bytes@.len() - i,
    {
        text.push(bytes[i] as char);
        i += 1;
        assert(text@ =~= chars_of_bytes(bytes@.take(i as int)));
    }
    assert(bytes@.take(i as int) =~= bytes@);
    text
}

/// The lower-case form of an ASCII letter.
pub(crate) fn lower(letter: char) -> (lowered: char)
    ensures
        lowered == ascii_lower(letter),
{
    if 'A' <= letter && letter <= 'Z' {
        (letter as u8 + 32) as char
    } else {
        letter
    }
}

/// Whether two lists of characters differ at most in ASCII case.
pub(crate) fn same_letters(left: &[char], right: &[char]) -> (same: bool)
    ensures
        same == same_ignoring_case(left@, right@),
{
    assert(folded(left@).len() == left@.len());
    assert(folded(right@).len() == right@.len());
    if left.len() != right.len() {
        return false;
    }
    let mut i: usize = 0;
    while i < left.len()
        invariant
            i <= left@.len(),
            left@.len() == right@.len(),
            forall|j: int| 0 <= j < i ==> ascii_lower(left@[j]) == ascii_lower(right@[j]),
        decreases left@.len() - i,
    {
        if lower(left[i]) != lower(right[i]) {
            assert(folded(left@)[i as int] != folded(right@)[i as int]);
            return false;
        }
        i += 1;
    }
    assert(folded(left@) =~= folded(right@));
    true
}

/// Whether a text occurs in another one up to ASCII case.
pub(crate) fn occurs(needle: &[char], text: &[char]) -> (found: bool)
    ensures
        found == occurs_ignoring_case(needle@, text@),
{
    assert(folded(text@).len() == text@.len());
    assert(folded(needle@).len() == needle@.len());
    if text.len() < needle.len() {
        return false;
    }
    let last: usize = text.len() - needle.len();
    let mut start: usize = 0;
    while start <= last
        invariant
            last == text@.len() - needle@.len(),
            start <= last + 1,
            text@.len() <= usize::MAX,
            folded(text@).len() == text@.len(),
            forall|i: int|
                0 <= i < start ==> #[trigger] folded(text@).subrange(i, i + needle@.len())
                    != folded(needle@),
        decreases last + 1 - start,
    {
        let part: &[char] = vstd::slice::slice_subrange(text, start, start + needle.len());
        assert(folded(part@) =~= folded(text@).subrange(start as int, start + needle@.len()));
        if same_letters(part, needle) {
            return true;
        }
        if start == last {
            return false;
        }
        start += 1;
    }
    false
}

/// Whether two texts differ at most in ASCII case.
pub(crate) fn eq_ignoring_case(left: &str, right: &str) -> (same: bool)
    ensures
        same == same_ignoring_case(left@, right@),
{
    same_letters(chars_of(left).as_slice(), chars_of(right).as_slice())
}

/// Whether every byte is an ASCII character.
pub(crate) fn ascii_bytes(bytes: &[u8]) -> (ascii: bool)
    ensures
        ascii == is_ascii_bytes(bytes@),
{
    let mut i: usize = 0;
    while i < bytes.len()
        invariant
            i <= bytes@.len(),
            forall|j: int| 0 <= j < i ==> bytes@[j] < 0x80,
        decreases bytes@.len() - i,
    {
        if bytes[i] >= 0x80 {
            return false;
        }
        i += 1;
    }
    true
}

/// Whether a character is an ASCII character.
pub(crate) fn is_ascii_letter(letter: char) -> (ascii: bool)
    ensures
        ascii == ('\0' <= letter && letter <= '\u{7f}'),
{
    letter <= '\u{7f}'
}

/// The codes of a text, if it is ASCII.
pub(crate) fn ascii_codes(text: &str) -> (codes: Option<Vec<u8>>)
    ensures
        codes.is_some() <==> is_ascii_text(text@),
        codes matches Some(bytes) ==> bytes@ == bytes_of_chars(text@),
{
    let letters: Vec<char> = chars_of(text);
    let mut codes: Vec<u8> = Vec::new();
    let mut i: usize = 0;
    while i < letters.len()
        invariant
            i <= letters@.len(),
            letters@ == text@,
            codes@ == bytes_of_chars(letters@.take(i as int)),
            is_ascii_text(letters@.take(i as int)),
        decreases letters@.len() - i,
    {
        let letter: char = letters[i];
        if !is_ascii_letter(letter) {
            assert(text@[i as int] == letter);
            return None;
        }
        codes.push(letter as u8);
        i += 1;
        proof {
            let now = letters@.take(i as int);
            assert(codes@ =~= bytes_of_chars(now));
            assert forall|j: int| 0 <= j < now.len() implies '\0' <= #[trigger] now[j] && now[j]
                <= '\u{7f}' by {
                if j < i - 1 {
                    assert(now[j] == letters@.take(i - 1)[j]);
                }
            }
        }
    }
    assert(letters@.take(i as int) =~= letters@);
    Some(codes)
}

/// The digit for a value below sixteen.
pub(crate) fn digit(value: u8) -> (letter: char)
    requires
        value < 16,
    ensures
        letter == digit_char(value as nat),
{
    if value < 10 {
        (48 + value) as char
    } else {
        (87 + value) as char
    }
}

/// Appends a decimal number.
pub(crate) fn push_decimal(text: &mut String, value: u64)
    ensures
        final(text)@ == old(text)@ + decimal(value as nat),
    decreases value,
{
    let ghost before = text@;
    if value >= 10 {
        push_decimal(text, value / 10);
    }
    text.push(digit((value % 10) as u8));
    assert(text@ =~= before + decimal(value as nat));
}

/// Appends the last `width` hexadecimal digits of a number.
pub(crate) fn push_hex(text: &mut String, value: u64, width: usize)
    ensures
        final(text)@ == old(text)@ + hex_digits(value as nat, width as nat),
    decreases width,
{
    let ghost before = text@;
    if width > 0 {
        push_hex(text, value / 16, width - 1);
        text.push(digit((value % 16) as u8));
    }
    assert(text@ =~= before + hex_digits(value as nat, width as nat));
}

/// A number in decimal.
pub(crate) fn decimal_text(value: u64) -> (text: String)
    ensures
        text@ == decimal(value as nat),
{
    let mut text: String = String::new();
    push_decimal(&mut text, value);
    assert(text@ =~= decimal(value as nat));
    text
}

/// A number as eight hexadecimal digits behind `0x`.
pub(crate) fn prefixed_hex_text(value: u32) -> (text: String)
    ensures
        text@ == prefixed_hex(value),
{
    let mut text: String = String::new();
    text.push('0');
    text.push('x');
    push_hex(&mut text, value as u64, 8);
    assert(text@ =~= prefixed_hex(value));
    text
}

/// Bytes as hexadecimal digits with a separator between bytes.
pub(crate) fn push_joined_hex(text: &mut String, bytes: &[u8], separator: &[char])
    ensures
        final(text)@ == old(text)@ + joined_hex(bytes@, separator@),
{
    let ghost before = text@;
    let mut i: usize = 0;
    assert(joined_hex(bytes@.take(0), separator@) =~= Seq::<char>::empty());
    assert(text@ =~= before + joined_hex(bytes@.take(0), separator@));
    while i < bytes.len()
        invariant
            i <= bytes@.len(),
            text@ == before + joined_hex(bytes@.take(i as int), separator@),
        decreases bytes@.len() - i,
    {
        let ghost start = text@;
        if i > 0 {
            let mut j: usize = 0;
            while j < separator.len()
                invariant
                    j <= separator@.len(),
                    text@ == start + separator@.take(j as int),
                decreases separator@.len() - j,
            {
                text.push(separator[j]);
                j += 1;
                assert(text@ =~= start + separator@.take(j as int));
            }
            assert(separator@.take(j as int) =~= separator@);
        }
        push_hex(text, bytes[i] as u64, 2);
        i += 1;
        proof {
            let now = bytes@.take(i as int);
            assert(now.drop_last() =~= bytes@.take(i - 1));
            assert(now.last() == bytes@[i - 1]);
            if i == 1 {
                assert(joined_hex(now, separator@) == hex_digits(bytes@[0] as nat, 2));
                assert(start =~= before);
            }
            assert(text@ =~= before + joined_hex(now, separator@));
        }
    }
    assert(bytes@.take(i as int) =~= bytes@);
}

/// Bytes as a bracketed list of two-digit numbers.
pub(crate) fn hex_list_text(bytes: &[u8]) -> (text: String)
    ensures
        text@ == hex_list(bytes@),
{
    let mut text: String = String::new();
    text.push('[');
    let separator: [char; 2] = [',', ' '];
    push_joined_hex(&mut text, bytes, &separator);
    text.push(']');
    assert(separator@ =~= seq![',', ' ']);
    assert(text@ =~= hex_list(bytes@));
    text
}

/// A white-space character, as the Unicode property of that name has it.
pub open spec fn is_space(letter: char) -> bool {
    ||| '\u{9}' <= letter && letter <= '\u{d}'
    ||| letter == ' '
    ||| letter == '\u{85}'
    ||| letter == '\u{a0}'
    ||| letter == '\u{1680}'
    ||| '\u{2000}' <= letter && letter <= '\u{200a}'
    ||| letter == '\u{2028}'
    ||| letter == '\u{2029}'
    ||| letter == '\u{202f}'
    ||| letter == '\u{205f}'
    ||| letter == '\u{3000}'
}

/// A text without its leading white space.
pub open spec fn trimmed_start(text: Seq<char>) -> Seq<char>
    decreases text.len(),
{
    if text.len() > 0 && is_space(text[0]) {
        trimmed_start(text.skip(1))
    } else {
        text
    }
}

/// A text without its trailing white space.
pub open spec fn trimmed_end(text: Seq<char>) -> Seq<char>
    decreases text.len(),
{
    if text.len() > 0 && is_space(text.last()) {
        trimmed_end(text.drop_last())
    } else {
        text
    }
}

/// A text without white space around it.
pub open spec fn trimmed(text: Seq<char>) -> Seq<char> {
    trimmed_end(trimmed_start(text))
}

/// Where a character first occurs, or the length of the text.
pub open spec fn first_at(text: Seq<char>, letter: char) -> nat
    decreases text.len(),
{
    if text.len() == 0 || text[0] == letter {
        0
    } else {
        1 + first_at(text.skip(1), letter)
    }
}

/// The piece of a text with the given number, where a character separates the
/// pieces; a piece that is not there is empty.
pub open spec fn piece_at(text: Seq<char>, separator: char, number: nat) -> Seq<char>
    decreases number,
{
    let end = first_at(text, separator);
    if number == 0 {
        text.take(end as int)
    } else if end >= text.len() {
        Seq::empty()
    } else {
        piece_at(text.skip(end as int + 1), separator, (number - 1) as nat)
    }
}

/// The value of a digit, or sixteen for what is none.
pub open spec fn digit_value(letter: char) -> nat {
    if '0' <= letter && letter <= '9' {
        (letter as int - 48) as nat
    } else if 'a' <= letter && letter <= 'f' {
        (letter as int - 87) as nat
    } else if 'A' <= letter && letter <= 'F' {
        (letter as int - 55) as nat
    } else {
        16
    }
}

/// Every character is a digit of the radix.
pub open spec fn all_digits(text: Seq<char>, radix: nat) -> bool {
    forall|i: int| 0 <= i < text.len() ==> digit_value(#[trigger] text[i]) < radix
}

/// The value of digits.
pub open spec fn radix_value(text: Seq<char>, radix: nat) -> nat
    decreases text.len(),
{
    if text.len() == 0 {
        0
    } else {
        radix_value(text.drop_last(), radix) * radix + digit_value(text.last())
    }
}

/// The digits of a number, behind a plus sign if it has one.
pub open spec fn digits_of(text: Seq<char>) -> Seq<char> {
    if text.len() > 1 && text[0] == '+' {
        text.skip(1)
    } else {
        text
    }
}

/// The number that a text states in a radix of at most sixteen: digits, of which
/// there is at least one, with an optional plus sign before them.
pub open spec fn number_of(text: Seq<char>, radix: nat) -> Option<nat> {
    let digits = digits_of(text);
    if digits.len() > 0 && all_digits(digits, radix) {
        Some(radix_value(digits, radix))
    } else {
        None
    }
}

/// The number that a text states, if it is not above a limit.
pub open spec fn number_up_to(text: Seq<char>, radix: nat, limit: nat) -> Option<nat> {
    match number_of(text, radix) {
        Some(value) => if value <= limit {
            Some(value)
        } else {
            None
        },
        None => None,
    }
}

/// Whether a character is white space.
fn space(letter: char) -> (is: bool)
    ensures
        is == is_space(letter),
{
    ('\u{9}' <= letter && letter <= '\u{d}') || letter == ' ' || letter == '\u{85}' || letter
        == '\u{a0}' || letter == '\u{1680}' || ('\u{2000}' <= letter && letter <= '\u{200a}')
        || letter == '\u{2028}' || letter == '\u{2029}' || letter == '\u{202f}' || letter
        == '\u{205f}' || letter == '\u{3000}'
}

/// A text without white space around it.
pub(crate) fn trim(text: &[char]) -> (inner: &[char])
    ensures
        inner@ == trimmed(text@),
{
    let mut start: usize = 0;
    assert(text@.skip(0) =~= text@);
    while start < text.len() && space(text[start])
        invariant
            start <= text@.len(),
            trimmed_start(text@) == trimmed_start(text@.skip(start as int)),
        decreases text@.len() - start,
    {
        assert(text@.skip(start as int).skip(1) =~= text@.skip(start + 1));
        start += 1;
    }
    let ghost rest = text@.skip(start as int);
    assert(trimmed_start(text@) == rest);
    let mut end: usize = text.len();
    assert(rest =~= text@.subrange(start as int, end as int));
    while end > start && space(text[end - 1])
        invariant
            start <= end <= text@.len(),
            trimmed_end(rest) == trimmed_end(text@.subrange(start as int, end as int)),
        decreases end - start,
    {
        assert(text@.subrange(start as int, end as int).drop_last() =~= text@.subrange(
            start as int,
            end - 1,
        ));
        end -= 1;
    }
    assert(trimmed_end(rest) == text@.subrange(start as int, end as int));
    vstd::slice::slice_subrange(text, start, end)
}

/// Where a character first occurs, or the length of the text.
pub(crate) fn find(text: &[char], letter: char) -> (at: usize)
    ensures
        at == first_at(text@, letter),
        at <= text@.len(),
{
    let mut at: usize = 0;
    assert(text@.skip(0) =~= text@);
    while at < text.len() && text[at] != letter
        invariant
            at <= text@.len(),
            first_at(text@, letter) == at + first_at(text@.skip(at as int), letter),
        decreases text@.len() - at,
    {
        assert(text@.skip(at as int).skip(1) =~= text@.skip(at + 1));
        at += 1;
    }
    at
}

/// The piece of a text with the given number.
pub(crate) fn piece(text: &[char], separator: char, number: usize) -> (part: &[char])
    ensures
        part@ == piece_at(text@, separator, number as nat),
    decreases number,
{
    let end: usize = find(text, separator);
    if number == 0 {
        assert(text@.subrange(0, end as int) =~= text@.take(end as int));
        return vstd::slice::slice_subrange(text, 0, end);
    }
    if end >= text.len() {
        assert(text@.subrange(0, 0) =~= Seq::<char>::empty());
        return vstd::slice::slice_subrange(text, 0, 0);
    }
    assert(text@.subrange(end + 1, text@.len() as int) =~= text@.skip(end as int + 1));
    piece(vstd::slice::slice_subrange(text, end + 1, text.len()), separator, number - 1)
}

/// The value of a digit, or sixteen for what is none.
fn value_of_digit(letter: char) -> (value: u8)
    ensures
        value == digit_value(letter),
{
    if '0' <= letter && letter <= '9' {
        letter as u8 - 48
    } else if 'a' <= letter && letter <= 'f' {
        letter as u8 - 87
    } else if 'A' <= letter && letter <= 'F' {
        letter as u8 - 55
    } else {
        16
    }
}

/// More digits never make a number smaller.
proof fn lemma_value_grows(digits: Seq<char>, radix: nat, length: int)
    requires
        0 <= length <= digits.len(),
        radix >= 1,
    ensures
        radix_value(digits.take(length), radix) <= radix_value(digits, radix),
    decreases digits.len() - length,
{
    if length == digits.len() {
        assert(digits.take(length) =~= digits);
    } else {
        let longer = digits.take(length + 1);
        assert(longer.drop_last() =~= digits.take(length));
        let value = radix_value(digits.take(length), radix);
        assert(value * radix >= value) by (nonlinear_arith)
            requires
                radix >= 1,
        ;
        lemma_value_grows(digits, radix, length + 1);
    }
}

/// Reads the number that a text states, if it is not above a limit.
pub(crate) fn parse_number(text: &[char], radix: u8, limit: u64) -> (number: Option<u64>)
    requires
        2 <= radix <= 16,
    ensures
        match (number, number_up_to(text@, radix as nat, limit as nat)) {
            (Some(number), Some(expected)) => number == expected,
            (None, None) => true,
            _ => false,
        },
{
    let digits: &[char] = if text.len() > 1 && text[0] == '+' {
        assert(text@.subrange(1, text@.len() as int) =~= text@.skip(1));
        vstd::slice::slice_subrange(text, 1, text.len())
    } else {
        text
    };
    assert(digits@ == digits_of(text@));
    if digits.len() == 0 {
        return None;
    }
    let mut value: u128 = 0;
    let mut i: usize = 0;
    while i < digits.len()
        invariant
            i <= digits@.len(),
            digits@ == digits_of(text@),
            2 <= radix <= 16,
            value <= limit <= u64::MAX,
            value == radix_value(digits@.take(i as int), radix as nat),
            forall|j: int| 0 <= j < i ==> digit_value(#[trigger] digits@[j]) < radix,
        decreases digits@.len() - i,
    {
        let digit: u8 = value_of_digit(digits[i]);
        if digit >= radix {
            assert(!all_digits(digits@, radix as nat));
            return None;
        }
        assert(value * radix <= 0xffff_ffff_ffff_ffff * 16) by (nonlinear_arith)
            requires
                value <= 0xffff_ffff_ffff_ffff,
                radix <= 16,
        ;
        value = value * radix as u128 + digit as u128;
        i += 1;
        proof {
            assert(digits@.take(i as int).drop_last() =~= digits@.take(i - 1));
            lemma_value_grows(digits@, radix as nat, i as int);
        }
        if value > limit as u128 {
            return None;
        }
    }
    assert(digits@.take(i as int) =~= digits@);
    Some(value as u64)
}

/// Two letters are the same up to case: equal, or the capital and the small form of
/// one ASCII letter.
pub open spec fn same_letter(left: char, right: char) -> bool {
    ||| left == right
    ||| 'A' <= left && left <= 'Z' && right as int == left as int + 32
    ||| 'A' <= right && right <= 'Z' && left as int == right as int + 32
}

/// Texts are the same up to case if and only if they have the same length and the
/// same letters up to case.
pub proof fn law_case_is_ignored_letter_by_letter(left: Seq<char>, right: Seq<char>)
    ensures
        same_ignoring_case(left, right) <==> left.len() == right.len() && (forall|i: int|
            0 <= i < left.len() ==> same_letter(#[trigger] left[i], right[i])),
{
    assert(folded(left).len() == left.len());
    assert(folded(right).len() == right.len());
    assert forall|a: char, b: char| #[trigger]
        same_letter(a, b) <==> ascii_lower(a) == ascii_lower(b) by {
        lemma_same_letter(a, b);
    }
    if same_ignoring_case(left, right) {
        assert forall|i: int| 0 <= i < left.len() implies same_letter(
            #[trigger] left[i],
            right[i],
        ) by {
            assert(folded(left)[i] == folded(right)[i]);
        }
    }
    if left.len() == right.len() && (forall|i: int|
        0 <= i < left.len() ==> same_letter(#[trigger] left[i], right[i])) {
        assert forall|i: int| 0 <= i < left.len() implies folded(left)[i] == folded(right)[i] by {
            assert(same_letter(left[i], right[i]));
        }
        assert(folded(left) =~= folded(right));
    }
}

proof fn lemma_same_letter(a: char, b: char)
    ensures
        same_letter(a, b) <==> ascii_lower(a) == ascii_lower(b),
{
    lemma_lower_code(a);
    lemma_lower_code(b);
    if ascii_lower(a) == ascii_lower(b) {
        assert(ascii_lower(a) as int == ascii_lower(b) as int);
        if a as int == b as int {
            lemma_codes(a, b);
        }
    }
    if same_letter(a, b) {
        lemma_codes(ascii_lower(a), ascii_lower(b));
    }
}

proof fn lemma_codes(a: char, b: char)
    ensures
        a as int == b as int ==> a == b,
{
    assert(a as u32 == b as u32 ==> a == b);
}

proof fn lemma_lower_code(letter: char)
    ensures
        ascii_lower(letter) as int == if 'A' <= letter && letter <= 'Z' {
            letter as int + 32
        } else {
            letter as int
        },
{
}

/// A text occurs in another one if and only if that one has a part which is the
/// text up to case.
pub proof fn law_occurring_texts_are_parts(needle: Seq<char>, text: Seq<char>)
    ensures
        occurs_ignoring_case(needle, text) <==> exists|start: int|
            0 <= start <= text.len() - needle.len() && same_ignoring_case(
                #[trigger] text.subrange(start, start + needle.len()),
                needle,
            ),
{
    assert forall|i: int| 0 <= i <= text.len() - needle.len() implies #[trigger] folded(
        text.subrange(i, i + needle.len()),
    ) == folded(text).subrange(i, i + needle.len()) by {
        assert(folded(text.subrange(i, i + needle.len())) =~= folded(text).subrange(
            i,
            i + needle.len(),
        ));
    }
    if occurs_ignoring_case(needle, text) {
        let i = choose|i: int|
            0 <= i <= text.len() - needle.len() && #[trigger] folded(text).subrange(
                i,
                i + needle.len(),
            ) == folded(needle);
        assert(folded(text.subrange(i, i + needle.len())) == folded(needle));
        assert(same_ignoring_case(text.subrange(i, i + needle.len()), needle));
    }
    if exists|start: int|
        0 <= start <= text.len() - needle.len() && same_ignoring_case(
            #[trigger] text.subrange(start, start + needle.len()),
            needle,
        ) {
        let i = choose|start: int|
            0 <= start <= text.len() - needle.len() && same_ignoring_case(
                #[trigger] text.subrange(start, start + needle.len()),
                needle,
            );
        assert(folded(text.subrange(i, i + needle.len())) == folded(needle));
        assert(folded(text).subrange(i, i + needle.len()) == folded(needle));
    }
}

/// The digits that a number is written with state the number again, in decimal and,
/// as long as they are enough, in hexadecimal.
pub proof fn law_written_numbers_read_back(value: nat, width: nat)
    ensures
        number_of(decimal(value), 10) == Some(value),
        width > 0 && value < vstd::arithmetic::power::pow(16, width) ==> number_of(
            hex_digits(value, width),
            16,
        ) == Some(value),
        hex_digits(value, width).len() == width,
{
    lemma_decimal_reads_back(value);
    lemma_hex_reads_back(value, width);
    let digits = decimal(value);
    assert(digits[0] != '+') by {
        assert(digit_value(digits[0]) < 10);
    }
    if width > 0 && value < vstd::arithmetic::power::pow(16, width) {
        let digits = hex_digits(value, width);
        assert(digits[0] != '+') by {
            assert(digit_value(digits[0]) < 16);
        }
    }
}

pub(crate) proof fn lemma_decimal_reads_back(value: nat)
    ensures
        decimal(value).len() > 0,
        all_digits(decimal(value), 10),
        radix_value(decimal(value), 10) == value,
    decreases value,
{
    lemma_digit(value % 10);
    if value < 10 {
        let digits = decimal(value);
        assert(digits.drop_last() =~= Seq::<char>::empty());
        reveal_with_fuel(radix_value, 2);
    } else {
        lemma_decimal_reads_back(value / 10);
        let digits = decimal(value);
        assert(digits.drop_last() =~= decimal(value / 10));
        assert forall|i: int| 0 <= i < digits.len() implies digit_value(#[trigger] digits[i]) < 10 by {
            if i < digits.len() - 1 {
                assert(digits[i] == decimal(value / 10)[i]);
            }
        }
    }
}

proof fn lemma_digit(value: nat)
    ensures
        value < 16 ==> digit_value(digit_char(value)) == value,
{
}

pub(crate) proof fn lemma_hex_reads_back(value: nat, width: nat)
    ensures
        hex_digits(value, width).len() == width,
        all_digits(hex_digits(value, width), 16),
        value < vstd::arithmetic::power::pow(16, width) ==> radix_value(
            hex_digits(value, width),
            16,
        ) == value,
    decreases width,
{
    vstd::arithmetic::power::lemma_pow0(16);
    if width > 0 {
        lemma_hex_reads_back(value / 16, (width - 1) as nat);
        lemma_digit(value % 16);
        let digits = hex_digits(value, width);
        assert(digits.drop_last() =~= hex_digits(value / 16, (width - 1) as nat));
        assert forall|i: int| 0 <= i < digits.len() implies digit_value(#[trigger] digits[i]) < 16 by {
            if i < digits.len() - 1 {
                assert(digits[i] == hex_digits(value / 16, (width - 1) as nat)[i]);
            }
        }
        let rest = vstd::arithmetic::power::pow(16, (width - 1) as nat);
        assert(vstd::arithmetic::power::pow(16, width) == 16 * rest) by {
            reveal(vstd::arithmetic::power::pow);
        }
        if value < vstd::arithmetic::power::pow(16, width) {
            assert(value / 16 < rest);
        }
    }
}

/// ASCII bytes are valid UTF-8 and decode to the characters with their codes.
pub(crate) proof fn lemma_ascii_decodes(bytes: Seq<u8>)
    requires
        is_ascii_bytes(bytes),
    ensures
        vstd::utf8::valid_utf8(bytes),
        vstd::utf8::decode_utf8(bytes) == chars_of_bytes(bytes),
{
    let letters = chars_of_bytes(bytes);
    assert forall|i: int| 0 <= i < letters.len() implies '\0' <= #[trigger] letters[i] && letters[i]
        <= '\u{7f}' by {
        assert(bytes[i] < 0x80);
    }
    assert(is_ascii_text(letters));
    vstd::utf8::is_ascii_chars_encode_utf8(letters);
    assert(vstd::utf8::encode_utf8(letters) =~= bytes);
    vstd::utf8::encode_utf8_valid_utf8(letters);
    vstd::utf8::encode_utf8_decode_utf8(letters);
}

} // verus!
