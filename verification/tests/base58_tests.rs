use rand::Rng;
use tx_review::base58::{alphabet_char, base58_encode, carry_pass_in_place};
use tx_review::error::ErrorCode;
use tx_review::staging::StagingBuffer;
use tx_review::tx_reviewer::{to_base58_address, TxReviewer};

const ALPHABET: &[u8; 58] = b"123456789ABCDEFGHJKLMNPQRSTUVWXYZabcdefghijkmnopqrstuvwxyz";

/// Base 58 by long division of the whole number, most significant digit
/// first, with or without a '1' for each leading zero byte.
fn reference_base58(input: &[u8], leading_ones: bool) -> String {
    let mut number: Vec<u8> = input.to_vec();
    let mut digits: Vec<u8> = Vec::new();
    while number.iter().any(|b| *b != 0) {
        let mut remainder: u32 = 0;
        for byte in number.iter_mut() {
            let value = remainder * 256 + *byte as u32;
            *byte = (value / 58) as u8;
            remainder = value % 58;
        }
        digits.push(ALPHABET[remainder as usize]);
    }
    if leading_ones {
        for _ in input.iter().take_while(|b| **b == 0) {
            digits.push(b'1');
        }
    }
    digits.reverse();
    String::from_utf8(digits).unwrap()
}

fn staged_multi_sig(payload: &[u8], capacity: usize) -> Result<String, ErrorCode> {
    let mut reviewer = TxReviewer::new(StagingBuffer::new(capacity));
    let end = reviewer.write_multi_sig(payload)?;
    assert_eq!(end, reviewer.get_index());
    Ok(String::from_utf8(reviewer.read_all().to_vec()).unwrap())
}

#[test]
fn alphabet_matches_the_table() {
    for digit in 0..58u8 {
        assert_eq!(alphabet_char(digit), ALPHABET[digit as usize]);
    }
}

#[test]
fn reference_is_sound_on_known_vectors() {
    assert_eq!(reference_base58(b"Hello World!", true), "2NEpo7TZRRrLZSi2U");
    assert_eq!(reference_base58(&[1, 2, 3], false), "Ldp");
}

#[test]
fn fixed_encoding_of_known_vectors() {
    let mut output = [0u8; 64];
    let text = base58_encode(b"Hello World!", &mut output).unwrap();
    assert_eq!(text, b"2NEpo7TZRRrLZSi2U");
    let mut output = [0u8; 64];
    assert_eq!(base58_encode(&[], &mut output).unwrap(), b"");
    let mut output = [0u8; 64];
    assert_eq!(base58_encode(&[0, 0, 0], &mut output).unwrap(), b"111");
    let mut output = [0u8; 64];
    assert_eq!(base58_encode(&[0, 1], &mut output).unwrap(), b"12");
    let mut output = [0u8; 64];
    assert_eq!(base58_encode(&[57], &mut output).unwrap(), b"z");
    let mut output = [0u8; 64];
    assert_eq!(base58_encode(&[58], &mut output).unwrap(), b"21");
}

#[test]
fn fixed_encoding_needs_room_for_every_character() {
    let mut exact = [0u8; 17];
    assert_eq!(
        base58_encode(b"Hello World!", &mut exact).unwrap(),
        b"2NEpo7TZRRrLZSi2U"
    );
    let mut short = [0u8; 16];
    assert_eq!(base58_encode(b"Hello World!", &mut short), None);
    let mut short = [0u8; 2];
    assert_eq!(base58_encode(&[0, 0, 0], &mut short), None);
    let mut empty = [0u8; 0];
    assert_eq!(base58_encode(&[1], &mut empty), None);
    assert_eq!(base58_encode(&[], &mut empty).unwrap(), b"");
}

#[test]
fn addresses_of_known_hashes() {
    let mut hash = [0u8; 32];
    for (i, byte) in hash.iter_mut().enumerate() {
        *byte = i as u8;
    }
    let mut output = [0u8; 46];
    assert_eq!(
        to_base58_address(0, &hash, &mut output).unwrap(),
        b"11thX6LZfHDZZKUs92febYZhYRcXddmzfzF2NvTkPNE"
    );
    let mut output = [0u8; 46];
    assert_eq!(
        to_base58_address(2, &[0xff; 32], &mut output).unwrap(),
        b"tgx7VNFoP9DJiFMFgXXtafQZkUvyEdDHT9ryamHJYrjp"
    );
    let mut output = [0u8; 46];
    assert_eq!(
        to_base58_address(0, &[0; 32], &mut output).unwrap(),
        b"111111111111111111111111111111111"
    );
    // the longest address takes all 46 bytes
    let mut output = [0u8; 46];
    assert_eq!(
        to_base58_address(0xff, &[0xff; 32], &mut output).unwrap(),
        b"2K3n5t4wSaF5mj27Tw9vStXWLWyRjjiH5Cp3CFLpKVCr1c"
    );
    let mut output = [0u8; 45];
    assert_eq!(
        to_base58_address(0xff, &[0xff; 32], &mut output),
        Err(ErrorCode::Overflow)
    );
}

#[test]
fn addresses_match_the_reference() {
    let mut rng = rand::thread_rng();
    for round in 0..64 {
        let mut hash = [0u8; 32];
        rng.fill(&mut hash[..]);
        for k in 0..(round % 5) {
            hash[k] = 0;
        }
        let prefix: u8 = (round % 3) as u8;
        let mut payload = vec![prefix];
        payload.extend_from_slice(&hash);
        let mut output = [0u8; 46];
        let text = to_base58_address(prefix, &hash, &mut output).unwrap();
        assert_eq!(
            String::from_utf8(text.to_vec()).unwrap(),
            reference_base58(&payload, true)
        );
    }
}

#[test]
fn one_pass_multiplies_by_256_and_adds() {
    // 57 + 57 * 58 = 3363; 3363 * 256 + 255 = 861183 = 255 * 58^2 + 0 * 58 + 3363 ...
    let mut digits = [57u8, 57, 0, 0];
    let left = carry_pass_in_place(&mut digits, 2, 255);
    let value: u64 = 3363 * 256 + 255;
    assert_eq!(digits[0] as u64, value % 58);
    assert_eq!(digits[1] as u64, (value / 58) % 58);
    assert_eq!(left as u64, value / 58 / 58);
    assert_eq!(&digits[2..], &[0, 0]);
    let mut none = [9u8; 3];
    assert_eq!(carry_pass_in_place(&mut none, 0, 200), 200);
    assert_eq!(none, [9u8; 3]);
}

#[test]
fn multi_sig_of_known_vectors() {
    assert_eq!(staged_multi_sig(&[1, 2, 3], 256).unwrap(), "Ldp");
    assert_eq!(staged_multi_sig(&[], 256).unwrap(), "");
    assert_eq!(staged_multi_sig(&[0, 0, 0], 256).unwrap(), "");
    assert_eq!(staged_multi_sig(&[0, 0, 1], 256).unwrap(), "2");
    assert_eq!(
        staged_multi_sig(&[0xff; 65], 256).unwrap(),
        "PbGvaomYRfb7uHHdgYrHrM2HMLhjLftSPTPiKpZnXVnaXWyAn4HxUWeMm3wbfQZ2BFkN3q7HqdxMLECGdmX1jgorv"
    );
}

fn check_multi_sig_length(length: usize) {
    let mut rng = rand::thread_rng();
    let zeros = vec![0u8; length];
    assert_eq!(
        staged_multi_sig(&zeros, 1024).unwrap(),
        reference_base58(&zeros, false)
    );
    let ones = vec![0xffu8; length];
    assert_eq!(
        staged_multi_sig(&ones, 1024).unwrap(),
        reference_base58(&ones, false)
    );
    for _ in 0..8 {
        let mut random = vec![0u8; length];
        rng.fill(&mut random[..]);
        if random[0] == 0 {
            random[0] = 1;
        }
        assert_eq!(
            staged_multi_sig(&random, 1024).unwrap(),
            reference_base58(&random, false)
        );
    }
}

#[test]
fn multi_sig_of_1_byte() {
    check_multi_sig_length(1);
}

#[test]
fn multi_sig_of_63_bytes() {
    check_multi_sig_length(63);
}

#[test]
fn multi_sig_of_64_bytes() {
    check_multi_sig_length(64);
}

#[test]
fn multi_sig_of_65_bytes() {
    check_multi_sig_length(65);
}

#[test]
fn multi_sig_of_127_bytes() {
    check_multi_sig_length(127);
}

#[test]
fn multi_sig_of_128_bytes() {
    check_multi_sig_length(128);
}

#[test]
fn multi_sig_of_129_bytes() {
    check_multi_sig_length(129);
}

#[test]
fn multi_sig_texts_around_the_window_of_64_digits() {
    // 46 bytes of 0xff give 63 digits, 47 bytes give 65; lengths in between
    // are reached with a smaller leading byte
    let mut seen = [false; 200];
    for length in 40..100usize {
        for first in [1u8, 0x20, 0xff] {
            let mut payload = vec![0xabu8; length];
            payload[0] = first;
            let text = staged_multi_sig(&payload, 1024).unwrap();
            assert_eq!(text, reference_base58(&payload, false));
            seen[text.len()] = true;
        }
    }
    for digits in [63, 64, 65, 127, 128, 129] {
        assert!(seen[digits], "no text of {} digits was tried", digits);
    }
}

#[test]
fn multi_sig_is_staged_behind_what_is_there() {
    let mut reviewer = TxReviewer::new(StagingBuffer::new(512));
    let first = reviewer.write_address(0, &[7; 32]).unwrap();
    assert_eq!(first, 44);
    let payload = vec![0x5au8; 100];
    let end = reviewer.write_multi_sig(&payload).unwrap();
    let expected = reference_base58(&payload, false);
    assert_eq!(end, first + expected.len());
    assert_eq!(reviewer.get_index(), end);
    let staged = reviewer.read_all();
    assert_eq!(&staged[..first], b"1US517G5965aydkZ46HS38QLi7UQiSojurfbQfKCELFx");
    assert_eq!(&staged[first..], expected.as_bytes());
}

#[test]
fn multi_sig_that_does_not_fit_is_an_overflow() {
    let payload = vec![0xffu8; 65];
    // the text has 89 characters
    assert!(staged_multi_sig(&payload, 89).is_ok());
    assert_eq!(staged_multi_sig(&payload, 88), Err(ErrorCode::Overflow));
    assert_eq!(staged_multi_sig(&payload, 64), Err(ErrorCode::Overflow));
    assert_eq!(staged_multi_sig(&payload, 10), Err(ErrorCode::Overflow));
    assert_eq!(staged_multi_sig(&payload, 0), Err(ErrorCode::Overflow));
    // the cursor is where it was
    let mut reviewer = TxReviewer::new(StagingBuffer::new(100));
    let first = reviewer.write_address(0, &[7; 32]).unwrap();
    assert_eq!(reviewer.write_multi_sig(&payload), Err(ErrorCode::Overflow));
    assert_eq!(reviewer.get_index(), first);
    assert_eq!(
        reviewer.read_all(),
        b"1US517G5965aydkZ46HS38QLi7UQiSojurfbQfKCELFx"
    );
}

#[test]
fn address_that_does_not_fit_is_an_overflow() {
    let mut reviewer = TxReviewer::new(StagingBuffer::new(43));
    assert_eq!(reviewer.write_address(0, &[7; 32]), Err(ErrorCode::Overflow));
    assert_eq!(reviewer.get_index(), 0);
    let mut reviewer = TxReviewer::new(StagingBuffer::new(44));
    assert_eq!(reviewer.write_address(0, &[7; 32]), Ok(44));
}
