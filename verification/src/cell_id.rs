//! Decoding of cell identifiers.
//!
//! An identifier is either a plain unsigned number, or a run of the letters
//! `'a'` to `'p'`, a `-` and a dataset number. Each letter stands for one
//! hexadecimal digit, `'a'` for 0 up to `'p'` for 15, and the run read as a
//! hexadecimal number is the cell's number.

use vstd::prelude::*;
use vstd::string::StrSliceExecFns;
use crate::error::DecodeError;
use crate::text::chars_of;

verus! {

/// The value of a sequence of digits in the given radix, most significant
/// digit first.
pub open spec fn positional(digits: Seq<int>, radix: int) -> int
    decreases digits.len(),
{
    if digits.len() == 0 {
        0
    } else {
        positional(digits.drop_last(), radix) * radix + digits.last()
    }
}

/// Whether `c` is one of the ten decimal digits.
pub open spec fn is_digit(c: char) -> bool {
    '0' <= c && c <= '9'
}

/// The value of a decimal digit.
pub open spec fn digit_of(c: char) -> int {
    c as int - '0' as int
}

/// The values of a run of decimal digits.
pub open spec fn decimal(s: Seq<char>) -> Seq<int> {
    Seq::new(s.len(), |i: int| digit_of(s[i]))
}

/// What is left of an unsigned number once one leading `+` is taken away.
pub open spec fn literal_digits(s: Seq<char>) -> Seq<char> {
    if s.len() > 0 && s[0] == '+' {
        s.drop_first()
    } else {
        s
    }
}

/// Whether `s` is written as an unsigned number: one or more decimal digits,
/// with or without one `+` before them, and nothing else.
pub open spec fn is_unsigned_literal(s: Seq<char>) -> bool {
    let d = literal_digits(s);
    d.len() > 0 && forall|i: int| 0 <= i < d.len() ==> is_digit(#[trigger] d[i])
}

/// The number that an unsigned literal stands for.
pub open spec fn literal_value(s: Seq<char>) -> int {
    positional(decimal(literal_digits(s)), 10)
}

/// Whether `s` is an unsigned number that is at most `max`.
pub open spec fn parses_within(s: Seq<char>, max: int) -> bool {
    is_unsigned_literal(s) && literal_value(s) <= max
}

/// The number that a shifted-hex letter stands for: `'a'` gives 0 and `'p'`
/// gives 15. Other characters give numbers below 0 or above 15.
pub open spec fn nibble_of(c: char) -> int {
    c as int - 'a' as int
}

/// Whether `c` is one of the sixteen letters `'a'` to `'p'`.
pub open spec fn is_shifted_hex(c: char) -> bool {
    'a' <= c && c <= 'p'
}

/// The numbers that a run of characters stands for, one for one.
pub open spec fn shifted(s: Seq<char>) -> Seq<int> {
    Seq::new(s.len(), |i: int| nibble_of(s[i]))
}

/// Whether every number in `a` is a hexadecimal digit.
pub open spec fn all_nibbles(a: Seq<int>) -> bool {
    forall|i: int| 0 <= i < a.len() ==> 0 <= #[trigger] a[i] < 16
}

/// The number that a run of hexadecimal digits stands for, or why it stands
/// for none.
pub open spec fn hex_array_value(a: Seq<int>) -> Result<u32, DecodeError> {
    if !all_nibbles(a) {
        Err(DecodeError::BadCharacter)
    } else if a.len() == 0 {
        Err(DecodeError::NoDigits)
    } else if positional(a, 16) > u32::MAX {
        Err(DecodeError::Overflow)
    } else {
        Ok(positional(a, 16) as u32)
    }
}

/// The number that a cell identifier stands for, or why it stands for none.
///
/// An identifier that is an unsigned number of at most 32 bits stands for
/// that number. Any other is split at its first `-`. What follows the `-`
/// must be an unsigned number that fits the machine's word; it is not part
/// of the result. What precedes it is read letter by letter as a hexadecimal
/// number.
pub open spec fn decode(s: Seq<char>) -> Result<u32, DecodeError> {
    if parses_within(s, u32::MAX as int) {
        Ok(literal_value(s) as u32)
    } else {
        match s.index_of_first('-') {
            None => Err(DecodeError::MissingSeparator),
            Some(i) => if !parses_within(s.skip(i + 1), usize::MAX as int) {
                Err(DecodeError::BadSuffix)
            } else {
                hex_array_value(shifted(s.take(i)))
            },
        }
    }
}

/// A run of digits is worth at least as much as any of its beginnings.
pub proof fn lemma_positional_prefix(digits: Seq<int>, radix: int, m: int)
    requires
        1 <= radix,
        forall|i: int| 0 <= i < digits.len() ==> 0 <= #[trigger] digits[i],
        0 <= m <= digits.len(),
    ensures
        0 <= positional(digits.take(m), radix) <= positional(digits, radix),
    decreases digits.len(),
{
    if m == digits.len() {
        assert(digits.take(m) =~= digits);
        if m > 0 {
            lemma_positional_prefix(digits.drop_last(), radix, m - 1);
            assert(digits.drop_last().take(m - 1) =~= digits.drop_last());
            let p = positional(digits.drop_last(), radix);
            assert(p * radix >= 0) by (nonlinear_arith)
                requires
                    p >= 0,
                    radix >= 1,
            ;
        }
    } else {
        lemma_positional_prefix(digits.drop_last(), radix, m);
        assert(digits.drop_last().take(m) =~= digits.take(m));
        let p = positional(digits.drop_last(), radix);
        lemma_positional_prefix(digits.drop_last(), radix, digits.len() - 1);
        assert(digits.drop_last().take(digits.len() - 1) =~= digits.drop_last());
        assert(p * radix >= p) by (nonlinear_arith)
            requires
                p >= 0,
                radix >= 1,
        ;
    }
}

/// Reads `s` as an unsigned number of at most `max`.
pub fn parse_unsigned(s: &str, max: u64) -> (value: Option<u64>)
    ensures
        value matches Some(v) ==> parses_within(s@, max as int) && v as int == literal_value(s@),
        value.is_none() ==> !parses_within(s@, max as int),
{
    let chars = chars_of(s);
    let n = chars.len();
    let start: usize = if n > 0 && chars[0] == '+' {
        1
    } else {
        0
    };
    let ghost d = literal_digits(s@);
    let ghost values = decimal(d);
    assert(d =~= s@.skip(start as int));
    if start == n {
        return None;
    }
    let mut acc: u64 = 0;
    let mut i: usize = start;
    while i < n
        invariant
            start <= i <= n,
            n == s@.len(),
            chars@ == s@,
            d == s@.skip(start as int),
            d == literal_digits(s@),
            values == decimal(d),
            forall|j: int| 0 <= j < i - start ==> is_digit(#[trigger] d[j]),
            acc == positional(values.take(i - start), 10),
            acc <= max,
        decreases n - i,
    {
        let c = chars[i];
        let ghost m = i - start;
        assert(d[m] == c);
        if !('0' <= c && c <= '9') {
            return None;
        }
        let digit = ((c as u32) - ('0' as u32)) as u64;
        proof {
            assert(values.take(m + 1).drop_last() =~= values.take(m));
            assert(values.take(m + 1).last() == digit);
        }
        if digit > max || acc > (max - digit) / 10 {
            proof {
                if is_unsigned_literal(s@) {
                    assert forall|j: int| 0 <= j < values.len() implies 0 <= #[trigger] values[j] by {
                        assert(is_digit(d[j]));
                    }
                    lemma_positional_prefix(values, 10, m + 1);
                }
            }
            return None;
        }
        acc = acc * 10 + digit;
        i += 1;
    }
    assert(values.take(i - start) =~= values);
    Some(acc)
}

/// Splits `s` at its first `-` into what precedes and what follows it.
pub fn split_at_dash(s: &str) -> (parts: Option<(&str, &str)>)
    ensures
        s@.index_of_first('-') is None <==> parts.is_none(),
        parts matches Some((left, right)) ==> {
            let i = s@.index_of_first('-').unwrap();
            left@ == s@.take(i) && right@ == s@.skip(i + 1)
        },
{
    let chars = chars_of(s);
    let n = chars.len();
    let mut i: usize = 0;
    while i < n
        invariant
            i <= n,
            n == s@.len(),
            chars@ == s@,
            forall|j: int| 0 <= j < i ==> s@[j] != '-',
        decreases n - i,
    {
        if chars[i] == '-' {
            proof {
                assert(s@[i as int] == '-');
                s@.index_of_first_ensures('-');
            }
            let left = s.substring_char(0, i);
            let right = s.substring_char(i + 1, n);
            assert(s@.subrange(0, i as int) =~= s@.take(i as int));
            assert(s@.subrange(i + 1, n as int) =~= s@.skip(i + 1));
            return Some((left, right));
        }
        i += 1;
    }
    proof {
        s@.index_of_first_ensures('-');
    }
    None
}

/// The number that `c` stands for when `'a'` counts as 0.
pub fn letter_number(c: char) -> (number: i32)
    ensures
        number as int == nibble_of(c),
{
    ((c as u32) as i64 - ('a' as u32) as i64) as i32
}

/// Turns each character into the number it stands for when `'a'` counts as 0.
pub fn shifted_hex_to_hex_array(shifted_hex_digits: &str) -> (hex_digits: Vec<i32>)
    ensures
        hex_digits@.len() == shifted_hex_digits@.len(),
        forall|i: int|
            0 <= i < hex_digits@.len() ==> #[trigger] hex_digits@[i] as int == nibble_of(
                shifted_hex_digits@[i],
            ),
{
    let chars = chars_of(shifted_hex_digits);
    let mut hex_digits: Vec<i32> = Vec::new();
    let mut i: usize = 0;
    while i < chars.len()
        invariant
            i <= chars.len(),
            chars@ == shifted_hex_digits@,
            hex_digits@.len() == i,
            forall|j: int| 0 <= j < i ==> #[trigger] hex_digits@[j] as int == nibble_of(chars@[j]),
        decreases chars.len() - i,
    {
        let c = chars[i];
        hex_digits.push(letter_number(c));
        i += 1;
    }
    hex_digits
}

/// The numbers held by a vector of machine integers.
pub open spec fn numbers(a: Seq<i32>) -> Seq<int> {
    Seq::new(a.len(), |i: int| a[i] as int)
}

/// Reads a run of hexadecimal digits, most significant first, as one number
/// of at most 32 bits.
pub fn convert_hex_array_to_int(hex_array: &[i32]) -> (integer_value: Result<u32, DecodeError>)
    ensures
        integer_value == hex_array_value(numbers(hex_array@)),
{
    let n = hex_array.len();
    let ghost a = numbers(hex_array@);
    let mut i: usize = 0;
    while i < n
        invariant
            i <= n,
            n == hex_array@.len(),
            a == numbers(hex_array@),
            forall|j: int| 0 <= j < i ==> 0 <= #[trigger] a[j] < 16,
        decreases n - i,
    {
        if hex_array[i] < 0 || hex_array[i] > 15 {
            assert(!(0 <= a[i as int] < 16));
            return Err(DecodeError::BadCharacter);
        }
        i += 1;
    }
    if n == 0 {
        return Err(DecodeError::NoDigits);
    }
    let mut acc: u64 = 0;
    let mut i: usize = 0;
    while i < n
        invariant
            i <= n,
            n == hex_array@.len(),
            a == numbers(hex_array@),
            all_nibbles(a),
            acc == positional(a.take(i as int), 16),
            acc <= u32::MAX,
        decreases n - i,
    {
        let digit = hex_array[i] as u64;
        proof {
            assert(0 <= a[i as int] < 16);
            assert(a.take(i + 1).drop_last() =~= a.take(i as int));
            assert(a.take(i + 1).last() == digit);
        }
        let next = acc * 16 + digit;
        if next > u32::MAX as u64 {
            proof {
                lemma_positional_prefix(a, 16, i + 1);
            }
            return Err(DecodeError::Overflow);
        }
        acc = next;
        i += 1;
    }
    assert(a.take(i as int) =~= a);
    Ok(acc as u32)
}

/// Decodes one cell identifier.
pub fn decode_cell_id(cell_id: &str) -> (id: Result<u32, DecodeError>)
    ensures
        id == decode(cell_id@),
{
    if let Some(numeric_id) = parse_unsigned(cell_id, u32::MAX as u64) {
        return Ok(numeric_id as u32);
    }
    match split_at_dash(cell_id) {
        None => Err(DecodeError::MissingSeparator),
        Some((shifted_hex_digits, dataset_suffix)) => {
            if parse_unsigned(dataset_suffix, usize::MAX as u64).is_none() {
                return Err(DecodeError::BadSuffix);
            }
            let hex_array = shifted_hex_to_hex_array(shifted_hex_digits);
            assert(numbers(hex_array@) =~= shifted(shifted_hex_digits@));
            convert_hex_array_to_int(hex_array.as_slice())
        },
    }
}

/// A plain number decodes to itself.
///
/// Every identifier written as an unsigned number of at most 32 bits decodes
/// to that number.
pub proof fn lemma_numeric_decodes(s: Seq<char>)
    requires
        is_unsigned_literal(s),
        literal_value(s) <= u32::MAX,
    ensures
        decode(s) == Ok::<u32, DecodeError>(literal_value(s) as u32),
{
}

/// The number of values that `len` hexadecimal digits can spell, 16 to the
/// power of `len`.
pub open spec fn capacity(len: nat) -> int
    decreases len,
{
    if len == 0 {
        1
    } else {
        16 * capacity((len - 1) as nat)
    }
}

/// A run of hexadecimal digits spells a number below its capacity, so up to
/// eight digits always fit 32 bits.
pub proof fn lemma_hex_fits(a: Seq<int>)
    requires
        all_nibbles(a),
    ensures
        0 <= positional(a, 16) < capacity(a.len()),
        a.len() <= 8 ==> positional(a, 16) <= u32::MAX,
    decreases a.len(),
{
    if a.len() > 0 {
        assert(0 <= a[a.len() - 1] < 16);
        assert forall|i: int| 0 <= i < a.drop_last().len() implies 0 <= #[trigger] a.drop_last()[i]
            < 16 by {
            assert(a.drop_last()[i] == a[i]);
        }
        lemma_hex_fits(a.drop_last());
    }
    if a.len() <= 8 {
        reveal_with_fuel(capacity, 9);
        lemma_capacity_grows(a.len(), 8);
    }
}

/// More digits spell more values.
pub proof fn lemma_capacity_grows(m: nat, n: nat)
    requires
        m <= n,
    ensures
        1 <= capacity(m) <= capacity(n),
    decreases n,
{
    if m < n {
        lemma_capacity_grows(m, (n - 1) as nat);
    } else if n > 0 {
        lemma_capacity_grows((m - 1) as nat, (n - 1) as nat);
    }
}

/// A run of letters decodes to the hexadecimal number it spells.
///
/// Take any letters from `'a'` to `'p'`, then a `-`, then any unsigned number
/// that fits the machine's word. The whole decodes to the number that the
/// letters' digits give when read in base 16, most significant digit first.
/// With one to eight letters that number always exists. With no letter there
/// is nothing to read, and with more than eight the number may pass 32 bits:
/// both are failures.
pub proof fn lemma_composite_decodes(letters: Seq<char>, suffix: Seq<char>)
    requires
        forall|i: int| 0 <= i < letters.len() ==> is_shifted_hex(#[trigger] letters[i]),
        parses_within(suffix, usize::MAX as int),
    ensures
        decode(letters + seq!['-'] + suffix) == if letters.len() == 0 {
            Err::<u32, DecodeError>(DecodeError::NoDigits)
        } else if positional(shifted(letters), 16) > u32::MAX {
            Err(DecodeError::Overflow)
        } else {
            Ok(positional(shifted(letters), 16) as u32)
        },
        1 <= letters.len() <= 8 ==> decode(letters + seq!['-'] + suffix) == Ok::<
            u32,
            DecodeError,
        >(positional(shifted(letters), 16) as u32),
{
    let s = letters + seq!['-'] + suffix;
    let at = letters.len() as int;
    assert(s[at] == '-');
    if at > 0 {
        assert(s[0] == letters[0]);
        assert(is_shifted_hex(letters[0]));
    }
    assert(literal_digits(s) == s);
    assert(!is_digit(literal_digits(s)[0]));
    assert(!is_unsigned_literal(s));
    s.index_of_first_ensures('-');
    assert(s.contains('-'));
    let i = s.index_of_first('-').unwrap();
    if i < at {
        assert(s[i] == letters[i]);
        assert(is_shifted_hex(letters[i]));
    }
    assert(i == at);
    assert(s.skip(at + 1) =~= suffix);
    assert(s.take(at) =~= letters);
    assert forall|j: int| 0 <= j < shifted(letters).len() implies 0 <= #[trigger] shifted(
        letters,
    )[j] < 16 by {
        assert(is_shifted_hex(letters[j]));
    }
    lemma_hex_fits(shifted(letters));
}

} // verus!
