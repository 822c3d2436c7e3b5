use tile_xenium::cell_id::convert_hex_array_to_int;
use tile_xenium::cell_id::decode_cell_id;
use tile_xenium::cell_id::letter_number;
use tile_xenium::cell_id::parse_unsigned;
use tile_xenium::cell_id::shifted_hex_to_hex_array;
use tile_xenium::cell_id::split_at_dash;
use tile_xenium::error::DecodeError;

#[test]
fn reverse_cell_id() {
    let cell_id = "ffkpbaba-1";

    let decoded = decode_cell_id(cell_id);
    assert_eq!(decoded, Ok(1437536272));
}

#[test]
fn numeric_ids_decode_to_themselves() {
    assert_eq!(decode_cell_id("42"), Ok(42));
    assert_eq!(decode_cell_id("0"), Ok(0));
    assert_eq!(decode_cell_id("007"), Ok(7));
    assert_eq!(decode_cell_id("+42"), Ok(42));
    assert_eq!(decode_cell_id("4294967295"), Ok(4294967295));
    assert_eq!(decode_cell_id("00000000000000000000000000000012"), Ok(12));
}

#[test]
fn every_numeric_id_up_to_a_bound_decodes_to_itself() {
    let mut n: u32 = 0;
    while n < 5000 {
        assert_eq!(decode_cell_id(&format!("{}", n)), Ok(n));
        n += 1;
    }
    let mut m: u32 = u32::MAX;
    while m > u32::MAX - 100 {
        assert_eq!(decode_cell_id(&format!("{}", m)), Ok(m));
        m -= 1;
    }
}

#[test]
fn letters_decode_to_the_hex_number_they_spell() {
    let letters = [
        'a', 'b', 'c', 'd', 'e', 'f', 'g', 'h', 'i', 'j', 'k', 'l', 'm', 'n', 'o', 'p',
    ];
    let mut value: u32 = 0;
    while value < 70000 {
        let mut text = String::new();
        let mut shift: i32 = 28;
        while shift >= 0 {
            text.push(letters[((value >> shift) & 15) as usize]);
            shift -= 4;
        }
        text.push_str("-1");
        assert_eq!(decode_cell_id(&text), Ok(value));
        value += 7;
    }
    assert_eq!(decode_cell_id("p-1"), Ok(15));
    assert_eq!(decode_cell_id("ba-3"), Ok(16));
    assert_eq!(decode_cell_id("pppppppp-1"), Ok(4294967295));
    assert_eq!(decode_cell_id("aaaaaaaaaaaab-1"), Ok(1));
}

#[test]
fn suffix_is_read_and_dropped() {
    assert_eq!(decode_cell_id("ffkpbaba-1"), decode_cell_id("ffkpbaba-2"));
    assert_eq!(decode_cell_id("ffkpbaba-+17"), Ok(1437536272));
    assert_eq!(decode_cell_id("ffkpbaba-000"), Ok(1437536272));
}

#[test]
fn missing_separator_is_reported() {
    assert_eq!(decode_cell_id("ffkpbaba"), Err(DecodeError::MissingSeparator));
    assert_eq!(decode_cell_id(""), Err(DecodeError::MissingSeparator));
    assert_eq!(decode_cell_id("UNASSIGNED"), Err(DecodeError::MissingSeparator));
    assert_eq!(decode_cell_id("4294967296"), Err(DecodeError::MissingSeparator));
    assert_eq!(decode_cell_id("+"), Err(DecodeError::MissingSeparator));
    assert_eq!(decode_cell_id("4 2"), Err(DecodeError::MissingSeparator));
}

#[test]
fn bad_suffix_is_reported() {
    assert_eq!(decode_cell_id("ffkpbaba-"), Err(DecodeError::BadSuffix));
    assert_eq!(decode_cell_id("ffkpbaba-x"), Err(DecodeError::BadSuffix));
    assert_eq!(decode_cell_id("ffkpbaba-1-2"), Err(DecodeError::BadSuffix));
    assert_eq!(decode_cell_id("ffkpbaba--1"), Err(DecodeError::BadSuffix));
    assert_eq!(decode_cell_id("ffkpbaba-1 "), Err(DecodeError::BadSuffix));
    assert_eq!(
        decode_cell_id("ffkpbaba-99999999999999999999999999"),
        Err(DecodeError::BadSuffix)
    );
    assert_eq!(decode_cell_id("zz-x"), Err(DecodeError::BadSuffix));
}

#[test]
fn bad_character_is_reported() {
    assert_eq!(decode_cell_id("ffkqbaba-1"), Err(DecodeError::BadCharacter));
    assert_eq!(decode_cell_id("FFKPBABA-1"), Err(DecodeError::BadCharacter));
    assert_eq!(decode_cell_id("12-1"), Err(DecodeError::BadCharacter));
    assert_eq!(decode_cell_id("ab cd-1"), Err(DecodeError::BadCharacter));
    assert_eq!(decode_cell_id("`-1"), Err(DecodeError::BadCharacter));
    assert_eq!(decode_cell_id("é-1"), Err(DecodeError::BadCharacter));
    assert_eq!(decode_cell_id("qaaaaaaaaaaaaaaaaa-1"), Err(DecodeError::BadCharacter));
}

#[test]
fn missing_digits_are_reported() {
    assert_eq!(decode_cell_id("-1"), Err(DecodeError::NoDigits));
    assert_eq!(decode_cell_id("-0"), Err(DecodeError::NoDigits));
}

#[test]
fn overflow_is_reported() {
    assert_eq!(decode_cell_id("baaaaaaaa-1"), Err(DecodeError::Overflow));
    assert_eq!(decode_cell_id("ppppppppp-1"), Err(DecodeError::Overflow));
    assert_eq!(decode_cell_id("ffkpbabaffkpbabaffkpbaba-1"), Err(DecodeError::Overflow));
}

#[test]
fn letters_become_numbers() {
    assert_eq!(shifted_hex_to_hex_array("ffkpbaba"), vec![5, 5, 10, 15, 1, 0, 1, 0]);
    assert_eq!(shifted_hex_to_hex_array(""), Vec::<i32>::new());
    assert_eq!(shifted_hex_to_hex_array("aq`A"), vec![0, 16, -1, -32]);
    assert_eq!(letter_number('a'), 0);
    assert_eq!(letter_number('p'), 15);
    assert_eq!(letter_number('0'), -49);
}

#[test]
fn numbers_become_one_integer() {
    assert_eq!(convert_hex_array_to_int(&[5, 5, 10, 15, 1, 0, 1, 0]), Ok(1437536272));
    assert_eq!(convert_hex_array_to_int(&[0]), Ok(0));
    assert_eq!(convert_hex_array_to_int(&[1, 0]), Ok(16));
    assert_eq!(convert_hex_array_to_int(&[15; 8]), Ok(u32::MAX));
    assert_eq!(convert_hex_array_to_int(&[]), Err(DecodeError::NoDigits));
    assert_eq!(convert_hex_array_to_int(&[16]), Err(DecodeError::BadCharacter));
    assert_eq!(convert_hex_array_to_int(&[-1]), Err(DecodeError::BadCharacter));
    assert_eq!(convert_hex_array_to_int(&[1, 0, 0, 0, 0, 0, 0, 0, 0]), Err(DecodeError::Overflow));
    assert_eq!(
        convert_hex_array_to_int(&[1, 0, 0, 0, 0, 0, 0, 0, 0, 16]),
        Err(DecodeError::BadCharacter)
    );
}

#[test]
fn unsigned_numbers_are_read() {
    assert_eq!(parse_unsigned("0", 10), Some(0));
    assert_eq!(parse_unsigned("10", 10), Some(10));
    assert_eq!(parse_unsigned("11", 10), None);
    assert_eq!(parse_unsigned("+7", 10), Some(7));
    assert_eq!(parse_unsigned("", 10), None);
    assert_eq!(parse_unsigned("+", 10), None);
    assert_eq!(parse_unsigned("-7", 10), None);
    assert_eq!(parse_unsigned("++7", 10), None);
    assert_eq!(parse_unsigned("7a", 10), None);
    assert_eq!(parse_unsigned("18446744073709551615", u64::MAX), Some(u64::MAX));
    assert_eq!(parse_unsigned("18446744073709551616", u64::MAX), None);
    assert_eq!(parse_unsigned("000000000000000000000000018446744073709551615", u64::MAX), Some(u64::MAX));
}

#[test]
fn identifier_splits_at_its_first_dash() {
    assert_eq!(split_at_dash("abc-1"), Some(("abc", "1")));
    assert_eq!(split_at_dash("abc-1-2"), Some(("abc", "1-2")));
    assert_eq!(split_at_dash("-"), Some(("", "")));
    assert_eq!(split_at_dash("abc"), None);
    assert_eq!(split_at_dash("é-ü"), Some(("é", "ü")));
}
