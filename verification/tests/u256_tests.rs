use rand::Rng;
use tx_review::decode::{Buffer, DecodeStage};
use tx_review::u256::{U256, ALPH_DECIMALS, _1000_NANO_ALPH};

fn hex_to_bytes(hex_string: &str) -> Result<Vec<u8>, std::num::ParseIntError> {
    (0..hex_string.len())
        .step_by(2)
        .map(|i| u8::from_str_radix(&hex_string[i..i + 2], 16))
        .collect()
}

fn random_usize(from: usize, to: usize) -> usize {
    let mut rng = rand::thread_rng();
    rng.gen_range(from..=to)
}

struct TestCase<'a>(Vec<u8>, &'a str);

fn get_test_vector<'a>() -> [TestCase<'a>; 31] {
    [
        TestCase(hex_to_bytes("00").unwrap(), "0"),
        TestCase(hex_to_bytes("01").unwrap(), "1"),
        TestCase(hex_to_bytes("02").unwrap(), "2"),
        TestCase(hex_to_bytes("3e").unwrap(), "62"),
        TestCase(hex_to_bytes("3f").unwrap(), "63"),
        TestCase(hex_to_bytes("4040").unwrap(), "64"),
        TestCase(hex_to_bytes("4041").unwrap(), "65"),
        TestCase(hex_to_bytes("4042").unwrap(), "66"),
        TestCase(hex_to_bytes("7ffe").unwrap(), "16382"),
        TestCase(hex_to_bytes("7fff").unwrap(), "16383"),
        TestCase(hex_to_bytes("80004000").unwrap(), "16384"),
        TestCase(hex_to_bytes("80004001").unwrap(), "16385"),
        TestCase(hex_to_bytes("80004002").unwrap(), "16386"),
        TestCase(hex_to_bytes("bffffffe").unwrap(), "1073741822"),
        TestCase(hex_to_bytes("bfffffff").unwrap(), "1073741823"),
        TestCase(hex_to_bytes("c040000000").unwrap(), "1073741824"),
        TestCase(hex_to_bytes("c040000001").unwrap(), "1073741825"),
        TestCase(hex_to_bytes("c040000002").unwrap(), "1073741826"),
        TestCase(
            hex_to_bytes("c5010000000000000000").unwrap(),
            "18446744073709551616",
        ),
        TestCase(
            hex_to_bytes("c5010000000000000001").unwrap(),
            "18446744073709551617",
        ),
        TestCase(
            hex_to_bytes("c4ffffffffffffffff").unwrap(),
            "18446744073709551615",
        ),
        TestCase(
            hex_to_bytes("cd00000000000000ff00000000000000ff00").unwrap(),
            "1204203453131759529557760",
        ),
        TestCase(
            hex_to_bytes("cd0100000000000000000000000000000000").unwrap(),
            "340282366920938463463374607431768211456",
        ),
        TestCase(
            hex_to_bytes("cd0100000000000000000000000000000001").unwrap(),
            "340282366920938463463374607431768211457",
        ),
        TestCase(
            hex_to_bytes("ccffffffffffffffffffffffffffffffff").unwrap(),
            "340282366920938463463374607431768211455",
        ),
        TestCase(
            hex_to_bytes("d501000000000000000000000000000000000000000000000000").unwrap(),
            "6277101735386680763835789423207666416102355444464034512896",
        ),
        TestCase(
            hex_to_bytes("d501000000000000000000000000000000000000000000000001").unwrap(),
            "6277101735386680763835789423207666416102355444464034512897",
        ),
        TestCase(
            hex_to_bytes("d4ffffffffffffffffffffffffffffffffffffffffffffffff").unwrap(),
            "6277101735386680763835789423207666416102355444464034512895",
        ),
        TestCase(
            hex_to_bytes("dcffffffffffffffffffffffffffffffffffffffffffffffffffffffffffffffff")
                .unwrap(),
            "115792089237316195423570985008687907853269984665640564039457584007913129639935",
        ),
        TestCase(
            hex_to_bytes("dcfffffffffffffffffffffffffffffffffffffffffffffffffffffffffffffffe")
                .unwrap(),
            "115792089237316195423570985008687907853269984665640564039457584007913129639934",
        ),
        TestCase(
            hex_to_bytes("dcfffffffffffffffffffffffffffffffffffffffffffffffffffffffffffffffd")
                .unwrap(),
            "115792089237316195423570985008687907853269984665640564039457584007913129639933",
        ),
    ]
}

#[test]
fn test_decode_u256() {
    let arrays = get_test_vector();
    for item in arrays {
        let bytes = item.0.as_slice();

        {
            let mut value = U256::default();
            let mut buffer = Buffer::new(bytes);
            let stage = value.decode(&mut buffer, &DecodeStage::default());
            let length = value.get_length();
            assert_eq!(bytes, &value.bytes[..length]);
            assert!(stage.is_complete());
        }

        let mut length: usize = 0;
        let mut value = U256::default();
        let mut stage = DecodeStage::default();

        while length < bytes.len() {
            let remain = bytes.len() - length;
            let size = random_usize(0, remain);
            let mut buffer = Buffer::new(&bytes[length..(length + size)]);
            length += size;

            stage = value.decode(&mut buffer, &stage);
            if length == bytes.len() {
                let length = value.get_length();
                assert_eq!(bytes, &value.bytes[..length]);
                assert!(stage.is_complete());
            } else {
                assert!(!stage.is_complete());
                assert_eq!(stage.index as usize, length);
            }
        }
    }
}

const MAX_OF_4_BYTES_ENCODED: u128 = 1073741823;

fn encode_fixed_bytes(n: u32) -> U256 {
    if n < 0x40 {
        U256::from_encoded_bytes(&[n as u8])
    } else if n < (0x40 << 8) {
        U256::from_encoded_bytes(&[((n >> 8) + 0x40) as u8, n as u8])
    } else if n < (0x40 << 24) {
        U256::from_encoded_bytes(&[
            ((n >> 24) + 0x40) as u8,
            (n >> 16) as u8,
            (n >> 8) as u8,
            n as u8,
        ])
    } else {
        panic!()
    }
}

/// The shortest encoding of `value`.
fn encode(value: u128) -> U256 {
    if value < 0x40 {
        U256::from_encoded_bytes(&[value as u8])
    } else if value < 0x4000 {
        U256::from_encoded_bytes(&[(value >> 8) as u8 | 0x40, value as u8])
    } else if value < 0x4000_0000 {
        U256::from_encoded_bytes(&[
            (value >> 24) as u8 | 0x80,
            (value >> 16) as u8,
            (value >> 8) as u8,
            value as u8,
        ])
    } else {
        encode_u128(value)
    }
}

fn encode_u128(value: u128) -> U256 {
    if value <= MAX_OF_4_BYTES_ENCODED {
        encode_fixed_bytes(value as u32)
    } else {
        let mut bytes: Vec<u8> = value
            .to_be_bytes()
            .iter()
            .cloned()
            .skip_while(|&b| b == 0)
            .collect();
        let header: u8 = ((bytes.len() - 4) as u8) | 0xc0;
        bytes.insert(0, header);
        U256::from_encoded_bytes(&bytes)
    }
}

fn render_str(value: &U256, size: usize) -> Option<String> {
    let mut output = vec![0u8; size];
    value
        .to_str(&mut output)
        .map(|text| String::from_utf8(text.to_vec()).unwrap())
}

fn render_alph(value: &U256, size: usize) -> Option<String> {
    let mut output = vec![0u8; size];
    value
        .to_alph(&mut output)
        .map(|text| String::from_utf8(text.to_vec()).unwrap())
}

fn render_scaled(value: &U256, size: usize, decimals: usize, places: usize) -> Option<String> {
    let mut output = vec![0u8; size];
    value
        .to_str_with_decimals(&mut output, decimals, places)
        .map(|text| String::from_utf8(text.to_vec()).unwrap())
}

#[test]
fn test_is_less_than_1000_nano_alph() {
    let u2560 = encode_u128((_1000_NANO_ALPH - 1) as u128);
    let u2561 = encode_u128((_1000_NANO_ALPH) as u128);
    let u2562 = encode_u128((_1000_NANO_ALPH + 1) as u128);

    assert!(u2560.is_less_than_1000_nano());
    assert!(!u2561.is_less_than_1000_nano());
    assert!(!u2562.is_less_than_1000_nano());
    assert!(!encode_u128(u128::MAX).is_less_than_1000_nano())
}

#[test]
fn test_to_alph() {
    let alph = |str: &str| {
        let index_opt = str.find('.');
        let mut result_str = String::new();
        if index_opt.is_none() {
            result_str.extend(str.chars());
            let pad: String = std::iter::repeat('0').take(ALPH_DECIMALS).collect();
            result_str.extend(pad.chars());
        } else {
            let index = index_opt.unwrap();
            let pad_size = ALPH_DECIMALS - (str.len() - index_opt.unwrap()) + 1;
            result_str.extend(str[0..index].chars());
            result_str.extend(str[(index + 1)..].chars());
            let pad: String = std::iter::repeat('0').take(pad_size).collect();
            result_str.extend(pad.chars());
        }
        result_str.parse::<u128>().unwrap()
    };

    let cases = [
        (0, "0"),
        (_1000_NANO_ALPH as u128, "0.000001"),
        ((10 as u128).pow(12), "0.000001"),
        ((_1000_NANO_ALPH as u128) - 1, "<0.000001"),
        ((10 as u128).pow(13), "0.00001"),
        ((10 as u128).pow(14), "0.0001"),
        ((10 as u128).pow(17), "0.1"),
        ((10 as u128).pow(17), "0.1"),
        ((10 as u128).pow(18), "1"),
        (alph("0.11111111111"), "0.111111"),
        (alph("111111.11111111"), "111111.111111"),
        (alph("1.010101"), "1.010101"),
        (alph("1.101010"), "1.10101"),
        (alph("1.9999999"), "1.999999"),
    ];
    for (number, str) in cases {
        let u256 = encode_u128(number);
        let mut output = [0u8; 33];
        let result = u256.to_alph(&mut output);
        assert!(result.is_some());
        let expected = core::str::from_utf8(result.unwrap()).unwrap();
        let amount_str = String::from(str) + " ALPH";
        assert_eq!(amount_str, String::from(expected));
    }

    let test_vector = get_test_vector();
    let u256 = U256::from_encoded_bytes(&test_vector[test_vector.len() - 1].0);
    let mut output = [0u8; 33];
    assert!(u256.to_alph(&mut output).is_none());
}

#[test]
fn test_to_str() {
    let test_vector = get_test_vector();

    for case in test_vector.iter() {
        let u256 = U256::from_encoded_bytes(&case.0);
        let mut output = [0u8; 78];
        let result = u256.to_str(&mut output).unwrap();
        let expected = core::str::from_utf8(&result).unwrap();
        assert_eq!(expected, case.1);
    }

    let case = &test_vector[test_vector.len() - 1];
    let u256 = U256::from_encoded_bytes(&case.0);
    let mut output = [0u8; 19];
    let result = u256.to_str(&mut output);
    assert!(result.is_none());
}

#[test]
fn decimal_rendering_of_named_values() {
    let cases: [(&str, &str); 12] = [
        ("00", "0"),
        ("01", "1"),
        ("3e", "62"),
        ("3f", "63"),
        ("4040", "64"),
        ("4041", "65"),
        ("7fff", "16383"),
        ("80004000", "16384"),
        ("c0fffffffe", "4294967294"),
        ("c4ffffffffffffffff", "18446744073709551615"),
        (
            "ccffffffffffffffffffffffffffffffff",
            "340282366920938463463374607431768211455",
        ),
        (
            "dcffffffffffffffffffffffffffffffffffffffffffffffffffffffffffffffff",
            "115792089237316195423570985008687907853269984665640564039457584007913129639935",
        ),
    ];
    for (encoded, expected) in cases {
        let value = U256::from_encoded_bytes(&hex_to_bytes(encoded).unwrap());
        assert_eq!(render_str(&value, 78).unwrap(), expected);
    }
}

#[test]
fn decimal_rendering_needs_room_for_every_digit() {
    let value = encode(12345);
    assert_eq!(render_str(&value, 5).unwrap(), "12345");
    assert_eq!(render_str(&value, 4), None);
    assert_eq!(render_str(&value, 0), None);
    let zero = encode(0);
    assert_eq!(render_str(&zero, 1).unwrap(), "0");
    assert_eq!(render_str(&zero, 0), None);
}

#[test]
fn decimal_rendering_leaves_the_text_at_the_front() {
    let value = encode(9876543210);
    let mut output = [0xaau8; 40];
    let length = value.to_str(&mut output).unwrap().len();
    assert_eq!(&output[..length], b"9876543210");
}

#[test]
fn zero_in_a_longer_encoding_renders_as_zero() {
    let two_bytes = U256::from_encoded_bytes(&[0x40, 0x00]);
    assert_eq!(render_str(&two_bytes, 78).unwrap(), "0");
    assert_eq!(render_alph(&two_bytes, 33).unwrap(), "0 ALPH");
    let five_bytes = U256::from_encoded_bytes(&[0xc0, 0, 0, 0, 0]);
    assert_eq!(render_str(&five_bytes, 78).unwrap(), "0");
    assert_eq!(render_alph(&five_bytes, 33).unwrap(), "0 ALPH");
    assert!(five_bytes.is_less_than_1000_nano());
}

#[test]
fn bytes_behind_the_encoding_are_not_part_of_the_value() {
    let mut value = U256::from_encoded_bytes(&[0x05]);
    value.bytes[1] = 0xff;
    value.bytes[32] = 0x01;
    assert!(!value.is_zero());
    assert_eq!(render_str(&value, 78).unwrap(), "5");
    let mut zero = U256::from_encoded_bytes(&[0x00]);
    assert!(zero.is_zero());
    zero.bytes[7] = 1;
    assert!(!zero.is_zero());
    assert_eq!(render_str(&zero, 78).unwrap(), "0");
}

#[test]
fn small_amount_with_leading_zero_bytes_is_below_the_threshold() {
    let mut bytes = vec![0xc6u8];
    bytes.extend_from_slice(&[0, 0, 0, 0, 0, 0, 0, 0, 0, 5]);
    let value = U256::from_encoded_bytes(&bytes);
    assert_eq!(value.get_length(), 11);
    assert!(value.is_less_than_1000_nano());
    assert_eq!(render_alph(&value, 33).unwrap(), "<0.000001 ALPH");
}

#[test]
fn native_unit_boundary() {
    let below = encode(999_999_999_999);
    let at = encode(1_000_000_000_000);
    let zero = encode(0);
    assert_eq!(render_alph(&below, 33).unwrap(), "<0.000001 ALPH");
    assert_eq!(render_alph(&at, 33).unwrap(), "0.000001 ALPH");
    assert_eq!(render_alph(&zero, 33).unwrap(), "0 ALPH");
    assert_eq!(
        render_alph(&encode(1_500_000_000_000_000_000), 33).unwrap(),
        "1.5 ALPH"
    );
    assert_eq!(
        render_alph(&encode(1_000_000_000_000_000_000), 33).unwrap(),
        "1 ALPH"
    );
    assert_eq!(render_alph(&encode(1), 33).unwrap(), "<0.000001 ALPH");
}

#[test]
fn native_unit_buffer_sizes() {
    let zero = encode(0);
    assert_eq!(render_alph(&zero, 6).unwrap(), "0 ALPH");
    assert_eq!(render_alph(&zero, 5), None);
    let tiny = encode(7);
    assert_eq!(render_alph(&tiny, 14).unwrap(), "<0.000001 ALPH");
    assert_eq!(render_alph(&tiny, 13), None);
    let one = encode(1_000_000_000_000_000_000);
    assert_eq!(render_alph(&one, 33).unwrap(), "1 ALPH");
    assert_eq!(render_alph(&one, 32), None);
    // 32 digits fit 33 bytes with the point, 33 digits do not
    let digits_32 = encode(12_345_678_901_234_567_890_123_456_789_012);
    assert_eq!(
        render_alph(&digits_32, 33).unwrap(),
        "12345678901234.56789 ALPH"
    );
    let digits_33 = encode(123_456_789_012_345_678_901_234_567_890_123);
    assert_eq!(render_alph(&digits_33, 33), None);
    assert_eq!(
        render_alph(&digits_33, 34).unwrap(),
        "123456789012345.678901 ALPH"
    );
}

#[test]
fn scaled_rendering() {
    let value = encode(1_234_500);
    assert_eq!(render_scaled(&value, 20, 0, 6).unwrap(), "1234500");
    assert_eq!(render_scaled(&value, 20, 3, 6).unwrap(), "1234.5");
    assert_eq!(render_scaled(&value, 20, 3, 0).unwrap(), "1234");
    assert_eq!(render_scaled(&value, 20, 6, 2).unwrap(), "1.23");
    assert_eq!(render_scaled(&value, 20, 7, 7).unwrap(), "0.12345");
    assert_eq!(render_scaled(&value, 20, 9, 9).unwrap(), "0.0012345");
    assert_eq!(render_scaled(&value, 20, 9, 2).unwrap(), "0");
    assert_eq!(render_scaled(&value, 20, 2, 9).unwrap(), "12345");
    assert_eq!(render_scaled(&encode(0), 20, 4, 4).unwrap(), "0");
    assert_eq!(render_scaled(&encode(100), 20, 2, 2).unwrap(), "1");
    // the number needs room for all its decimals and the point
    assert_eq!(render_scaled(&value, 8, 3, 6).unwrap(), "1234.5");
    assert_eq!(render_scaled(&value, 7, 3, 6), None);
    assert_eq!(render_scaled(&value, 11, 9, 9).unwrap(), "0.0012345");
    assert_eq!(render_scaled(&value, 10, 9, 9), None);
    assert_eq!(render_scaled(&value, 7, 0, 0).unwrap(), "1234500");
    assert_eq!(render_scaled(&value, 6, 0, 0), None);
}

#[test]
fn trim_drops_trailing_zeros_and_point() {
    assert_eq!(tx_review::u256::trim(b"1.500000"), b"1.5");
    assert_eq!(tx_review::u256::trim(b"1.000000"), b"1");
    assert_eq!(tx_review::u256::trim(b"100.000"), b"100");
    assert_eq!(tx_review::u256::trim(b"0.000001"), b"0.000001");
    assert_eq!(tx_review::u256::trim(b"000"), b"0");
    assert_eq!(tx_review::u256::trim(b"."), b"");
    assert_eq!(tx_review::u256::trim(b"7"), b"7");
}

#[test]
fn header_classes() {
    assert_eq!(tx_review::u256::decode_length(0x00), 1);
    assert_eq!(tx_review::u256::decode_length(0x3f), 1);
    assert_eq!(tx_review::u256::decode_length(0x40), 2);
    assert_eq!(tx_review::u256::decode_length(0x7f), 2);
    assert_eq!(tx_review::u256::decode_length(0x80), 4);
    assert_eq!(tx_review::u256::decode_length(0xbf), 4);
    assert_eq!(tx_review::u256::decode_length(0xc0), 5);
    assert_eq!(tx_review::u256::decode_length(0xdc), 33);
    assert_eq!(tx_review::u256::decode_length(0xff), 68);
    assert!(tx_review::u256::is_fixed_size(0xbf));
    assert!(!tx_review::u256::is_fixed_size(0xc0));
    assert!(tx_review::u256::is_valid_header(0xdc));
    assert!(!tx_review::u256::is_valid_header(0xdd));
    let value = U256::from_encoded_bytes(&[0x80, 0, 0x40, 0]);
    assert_eq!(value.get_length(), 4);
    assert!(value.is_fixed_size());
    assert!(value.is_valid());
    assert_eq!(U256::decode_fixed_size(&[0xbf, 0xff, 0xff, 0xff]), 1073741823);
    assert_eq!(U256::decode_fixed_size(&[0x7f, 0xfe]), 16382);
    assert_eq!(U256::decode_fixed_size(&[0x3e]), 62);
}

#[test]
fn values_compare_by_their_storage() {
    let a = U256::from_encoded_bytes(&[0x40, 0x41]);
    let b = U256::from_encoded_bytes(&[0x40, 0x41]);
    let c = U256::from_encoded_bytes(&[0x40, 0x42]);
    assert!(a == b);
    assert!(a != c);
    let mut d = U256::from_encoded_bytes(&[0x40, 0x41]);
    d.reset();
    assert!(d.is_zero());
    assert!(d == U256::default());
}

#[test]
fn decode_byte_by_byte_and_in_one_piece_agree() {
    for item in get_test_vector() {
        let bytes = item.0.as_slice();
        let mut whole = U256::default();
        let mut buffer = Buffer::new(bytes);
        let stage = whole.decode(&mut buffer, &DecodeStage::default());
        assert!(stage.is_complete());
        assert!(buffer.is_empty());

        let mut pieces = U256::default();
        let mut stage = DecodeStage::default();
        for (i, byte) in bytes.iter().enumerate() {
            // an empty chunk changes nothing
            let mut empty = Buffer::new(&[]);
            let same = pieces.decode(&mut empty, &stage);
            assert_eq!(same, stage);
            let chunk = [*byte];
            let mut buffer = Buffer::new(&chunk);
            stage = pieces.decode(&mut buffer, &stage);
            assert!(buffer.is_empty());
            assert_eq!(stage.is_complete(), i + 1 == bytes.len());
        }
        assert!(whole == pieces);
        assert_eq!(render_str(&whole, 78), render_str(&pieces, 78));
        assert_eq!(render_str(&pieces, 78).unwrap(), item.1);
    }
}

#[test]
fn decode_leaves_what_follows_the_value() {
    let bytes = [0x40u8, 0x41, 0x99, 0x98];
    let mut value = U256::default();
    let mut buffer = Buffer::new(&bytes);
    let stage = value.decode(&mut buffer, &DecodeStage::default());
    assert!(stage.is_complete());
    assert_eq!(buffer.len(), 2);
    assert_eq!(buffer.peek_byte(), Some(0x99));
    assert_eq!(buffer.next_byte(), Some(0x99));
    assert_eq!(buffer.next_byte(), Some(0x98));
    assert_eq!(buffer.next_byte(), None);
    assert_eq!(value.step_size(), 1);
    assert_eq!(DecodeStage::complete(), DecodeStage { step: u16::MAX, index: 0 });
}

#[test]
fn random_values_render_like_the_standard_library() {
    let mut rng = rand::thread_rng();
    for round in 0..2000 {
        let bits = round % 128 + 1;
        let value: u128 = rng.gen::<u128>() >> (128 - bits);
        let encoded = encode(value);
        assert_eq!(render_str(&encoded, 78).unwrap(), value.to_string());
        let digits = value.to_string().len();
        assert_eq!(render_str(&encoded, digits).unwrap(), value.to_string());
        assert_eq!(render_str(&encoded, digits - 1), None);
    }
}

#[test]
fn random_amounts_render_in_the_native_unit() {
    let mut rng = rand::thread_rng();
    for round in 0..2000 {
        let bits = round % 100 + 1;
        let value: u128 = rng.gen::<u128>() >> (128 - bits);
        let expected = if value == 0 {
            String::from("0 ALPH")
        } else if value < 1_000_000_000_000 {
            String::from("<0.000001 ALPH")
        } else {
            let whole = value / 1_000_000_000_000_000_000;
            let millionths = value % 1_000_000_000_000_000_000 / 1_000_000_000_000;
            let mut text = format!("{}.{:06}", whole, millionths);
            while text.ends_with('0') {
                text.pop();
            }
            if text.ends_with('.') {
                text.pop();
            }
            text + " ALPH"
        };
        let encoded = encode(value);
        assert_eq!(render_alph(&encoded, 40).unwrap(), expected);
        assert_eq!(encoded.is_less_than_1000_nano(), value < 1_000_000_000_000);
    }
}
