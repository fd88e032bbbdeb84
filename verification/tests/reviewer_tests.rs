use tx_review::error::ErrorCode;
use tx_review::staging::StagingBuffer;
use tx_review::tx_reviewer::{InputInfo, Screen, Step, TxReviewer};
use tx_review::types::{
    unlock_preimage, AVector, AssetOutput, Byte32, InputDigests, LockupScript, PublicKey, Token,
    TxFee, TxInput, UnlockScript, UnsignedTx,
};
use tx_review::u256::U256;

const ADDRESS_7: &str = "1US517G5965aydkZ46HS38QLi7UQiSojurfbQfKCELFx";
const ADDRESS_9: &str = "1cGfHiC6Kgg3FpFZvgwGcswsCRtp4aBP2fzuXRQPizuN";
const SCRIPT_ADDRESS_7: &str = "bw4ozgmGjBZ87oKPWSe2Ra1PD6m4CrwvsxaF8WAjGEkW";

fn reviewer() -> TxReviewer {
    TxReviewer::new(StagingBuffer::new(1024))
}

fn key_input() -> TxInput {
    TxInput { unlock_script: UnlockScript::P2PKH(PublicKey([3u8; 33])) }
}

fn digests(unlock: u8, device: u8) -> InputDigests {
    InputDigests { unlock: Ok([unlock; 32]), device: Some([device; 32]) }
}

fn amount(value: u128) -> U256 {
    let mut bytes: Vec<u8> = value.to_be_bytes().iter().cloned().skip_while(|&b| b == 0).collect();
    while bytes.len() < 4 {
        bytes.insert(0, 0);
    }
    let header: u8 = ((bytes.len() - 4) as u8) | 0xc0;
    bytes.insert(0, header);
    U256::from_encoded_bytes(&bytes)
}

fn fields_of(screen: &Screen) -> Vec<(String, String)> {
    screen.fields.iter().map(|f| (f.name.to_string(), f.value.clone())).collect()
}

fn pair(name: &str, value: &str) -> (String, String) {
    (name.to_string(), value.to_string())
}

/// Shows every screen that the engine asks for and approves it; returns the screens.
fn approve_all(reviewer: &mut TxReviewer, first: Result<Step, ErrorCode>) -> Result<Vec<Screen>, ErrorCode> {
    let mut screens = Vec::new();
    let mut step = first?;
    loop {
        match step {
            Step::Done => return Ok(screens),
            Step::Show(screen) => {
                screens.push(screen);
                step = reviewer.confirm(true)?;
            }
        }
    }
}

fn assert_reset(reviewer: &TxReviewer) {
    assert_eq!(reviewer.get_index(), 0);
    assert_eq!(reviewer.get_previous_input(), None);
    assert!(!reviewer.is_pending());
    assert_eq!(reviewer.read_all(), b"");
}

#[test]
fn three_inputs_of_the_device_show_nothing() {
    let mut reviewer = reviewer();
    let own = digests(7, 7);
    for index in 0..3 {
        let step = reviewer.review_input(&key_input(), index, 3, &own);
        let screens = approve_all(&mut reviewer, step).unwrap();
        assert!(screens.is_empty());
        if index < 2 {
            assert_eq!(
                reviewer.get_previous_input(),
                Some(InputInfo { length: 44, input_index: 0 })
            );
            assert_eq!(reviewer.read_all(), ADDRESS_7.as_bytes());
        }
    }
    assert_reset(&reviewer);
}

#[test]
fn three_inputs_of_another_address_show_one_run() {
    let mut reviewer = reviewer();
    let other = digests(7, 9);
    let mut screens = Vec::new();
    for index in 0..3 {
        let step = reviewer.review_input(&key_input(), index, 3, &other);
        screens.extend(approve_all(&mut reviewer, step).unwrap());
    }
    assert_eq!(screens.len(), 1);
    assert_eq!(screens[0].message, "Inputs #0 - #2");
    assert_eq!(fields_of(&screens[0]), vec![pair("Address", ADDRESS_7)]);
    assert_reset(&reviewer);
}

#[test]
fn a_single_input_of_the_device_shows_nothing() {
    let mut reviewer = reviewer();
    let step = reviewer.review_input(&key_input(), 0, 1, &digests(7, 7));
    assert!(matches!(step, Ok(Step::Done)));
    assert_reset(&reviewer);
}

#[test]
fn a_single_input_of_another_address_is_shown() {
    let mut reviewer = reviewer();
    let step = reviewer.review_input(&key_input(), 0, 1, &digests(7, 9));
    let screen = match step {
        Ok(Step::Show(screen)) => screen,
        other => panic!("{:?}", other),
    };
    assert_eq!(screen.message, "Input #0");
    assert_eq!(fields_of(&screen), vec![pair("Address", ADDRESS_7)]);
    // the address and the heading are staged while the screen is up
    assert_eq!(reviewer.read_all(), format!("{}Input #0", ADDRESS_7).as_bytes());
    assert!(reviewer.is_pending());
    assert!(matches!(reviewer.confirm(true), Ok(Step::Done)));
    assert_reset(&reviewer);
}

#[test]
fn runs_of_inputs_are_shown_as_they_end() {
    let mut reviewer = reviewer();
    let addresses = [7u8, 7, 9, 9, 7];
    let mut shown: Vec<(String, String)> = Vec::new();
    for (index, unlock) in addresses.iter().enumerate() {
        let step = reviewer.review_input(&key_input(), index, 5, &digests(*unlock, 7));
        for screen in approve_all(&mut reviewer, step).unwrap() {
            shown.push((screen.message.clone(), screen.fields[0].value.clone()));
        }
    }
    assert_eq!(
        shown,
        vec![
            pair("Inputs #0 - #1", ADDRESS_7),
            pair("Inputs #2 - #3", ADDRESS_9),
            pair("Input #4", ADDRESS_7),
        ]
    );
    assert_reset(&reviewer);
}

#[test]
fn a_run_is_kept_at_the_start_of_the_buffer() {
    let mut reviewer = reviewer();
    assert!(matches!(
        reviewer.review_input(&key_input(), 0, 4, &digests(9, 7)),
        Ok(Step::Done)
    ));
    assert_eq!(reviewer.get_index(), 44);
    assert_eq!(reviewer.read_all(), ADDRESS_9.as_bytes());
    assert_eq!(reviewer.get_previous_input(), Some(InputInfo { length: 44, input_index: 0 }));
    // an input that repeats the proof of the one before it changes nothing
    let repeat = TxInput { unlock_script: UnlockScript::SameAsPrevious };
    assert!(matches!(reviewer.review_input(&repeat, 1, 4, &digests(0, 7)), Ok(Step::Done)));
    assert_eq!(reviewer.get_index(), 44);
    assert_eq!(reviewer.get_previous_input(), Some(InputInfo { length: 44, input_index: 0 }));
    // another address ends the run; the next run opens on approval
    let step = reviewer.review_input(&key_input(), 2, 4, &digests(7, 7));
    let screen = match step {
        Ok(Step::Show(screen)) => screen,
        other => panic!("{:?}", other),
    };
    assert_eq!(screen.message, "Inputs #0 - #1");
    assert_eq!(fields_of(&screen), vec![pair("Address", ADDRESS_9)]);
    assert_eq!(reviewer.get_index(), 44 + 14);
    assert!(matches!(reviewer.confirm(true), Ok(Step::Done)));
    assert_eq!(reviewer.get_index(), 44);
    assert_eq!(reviewer.read_all(), ADDRESS_7.as_bytes());
    assert_eq!(reviewer.get_previous_input(), Some(InputInfo { length: 44, input_index: 2 }));
    // the last input repeats the proof: the run is shown, though it is the device's,
    // since it did not begin with the first input
    let step = reviewer.review_input(&repeat, 3, 4, &digests(0, 7));
    let screens = approve_all(&mut reviewer, step).unwrap();
    assert_eq!(screens.len(), 1);
    assert_eq!(screens[0].message, "Inputs #2 - #3");
    assert_eq!(fields_of(&screens[0]), vec![pair("Address", ADDRESS_7)]);
    assert_reset(&reviewer);
}

#[test]
fn inputs_of_several_keys_are_shown_one_by_one() {
    let mut reviewer = reviewer();
    let input = TxInput { unlock_script: UnlockScript::P2MPKH };
    let unused = InputDigests { unlock: Err(ErrorCode::InternalError), device: None };
    let mut shown: Vec<(String, String)> = Vec::new();
    for index in 0..3 {
        let step = reviewer.review_input(&input, index, 3, &unused);
        for screen in approve_all(&mut reviewer, step).unwrap() {
            shown.push((screen.message.clone(), screen.fields[0].value.clone()));
        }
    }
    assert_eq!(
        shown,
        vec![
            pair("Input #0", "multi-sig-address"),
            pair("Input #1", "multi-sig-address"),
            pair("Input #2", "multi-sig-address"),
        ]
    );
    assert_reset(&reviewer);
}

#[test]
fn a_script_input_has_the_script_prefix() {
    let mut reviewer = reviewer();
    let input = TxInput { unlock_script: UnlockScript::P2SH };
    let step = reviewer.review_input(&input, 0, 2, &digests(7, 7));
    assert!(matches!(step, Ok(Step::Done)));
    assert_eq!(reviewer.read_all(), SCRIPT_ADDRESS_7.as_bytes());
    // the key with the same digest has another address
    let step = reviewer.review_input(&key_input(), 1, 2, &digests(7, 9));
    let screens = approve_all(&mut reviewer, step).unwrap();
    assert_eq!(screens.len(), 2);
    assert_eq!(screens[0].message, "Input #0");
    assert_eq!(fields_of(&screens[0]), vec![pair("Address", SCRIPT_ADDRESS_7)]);
    assert_eq!(screens[1].message, "Input #1");
    assert_eq!(fields_of(&screens[1]), vec![pair("Address", ADDRESS_7)]);
    assert_reset(&reviewer);
}

#[test]
fn what_is_hashed_for_an_input() {
    let script = [1u8, 2, 3];
    assert_eq!(unlock_preimage(&key_input(), &script), Some(&[3u8; 33][..]));
    let input = TxInput { unlock_script: UnlockScript::P2SH };
    assert_eq!(unlock_preimage(&input, &script), Some(&script[..]));
    let input = TxInput { unlock_script: UnlockScript::P2MPKH };
    assert_eq!(unlock_preimage(&input, &script), None);
    let input = TxInput { unlock_script: UnlockScript::SameAsPrevious };
    assert_eq!(unlock_preimage(&input, &script), None);
}

#[test]
fn a_rejected_run_cancels_the_review() {
    let mut reviewer = reviewer();
    for index in 0..2 {
        let step = reviewer.review_input(&key_input(), index, 3, &digests(7, 9));
        assert!(matches!(step, Ok(Step::Done)));
    }
    let step = reviewer.review_input(&key_input(), 2, 3, &digests(7, 9));
    assert!(matches!(step, Ok(Step::Show(_))));
    assert_eq!(reviewer.confirm(false).unwrap_err(), ErrorCode::UserCancelled);
    assert_reset(&reviewer);
}

#[test]
fn rejecting_the_run_before_a_new_one_opens_nothing() {
    let mut reviewer = reviewer();
    assert!(matches!(reviewer.review_input(&key_input(), 0, 3, &digests(7, 7)), Ok(Step::Done)));
    let step = reviewer.review_input(&key_input(), 1, 3, &digests(9, 7));
    assert!(matches!(step, Ok(Step::Show(_))));
    assert!(reviewer.is_pending());
    assert_eq!(reviewer.confirm(false).unwrap_err(), ErrorCode::UserCancelled);
    assert_reset(&reviewer);
    // a further answer finds nothing to do
    assert!(matches!(reviewer.confirm(true), Ok(Step::Done)));
    assert_reset(&reviewer);
}

#[test]
fn rejecting_the_second_screen_of_an_input_cancels_the_review() {
    let mut reviewer = reviewer();
    assert!(matches!(reviewer.review_input(&key_input(), 0, 2, &digests(7, 7)), Ok(Step::Done)));
    let step = reviewer.review_input(&key_input(), 1, 2, &digests(9, 7));
    assert!(matches!(step, Ok(Step::Show(_))));
    let step = reviewer.confirm(true);
    let screen = match step {
        Ok(Step::Show(screen)) => screen,
        other => panic!("{:?}", other),
    };
    assert_eq!(screen.message, "Input #1");
    assert_eq!(reviewer.confirm(false).unwrap_err(), ErrorCode::UserCancelled);
    assert_reset(&reviewer);
}

#[test]
fn a_missing_device_key_is_an_error_only_where_it_is_needed() {
    let no_device = InputDigests { unlock: Ok([7; 32]), device: None };
    // not needed: the input is neither the only one nor the end of a run from the start
    let mut reviewer = reviewer();
    assert!(matches!(reviewer.review_input(&key_input(), 0, 2, &no_device), Ok(Step::Done)));
    // needed at the end of a run that began with the first input
    let step = reviewer.review_input(&key_input(), 1, 2, &no_device);
    assert_eq!(step.unwrap_err(), ErrorCode::DerivingPublicKeyFailed);
    assert_reset(&reviewer);
    // needed for a single input
    let step = reviewer.review_input(&key_input(), 0, 1, &no_device);
    assert_eq!(step.unwrap_err(), ErrorCode::DerivingPublicKeyFailed);
    assert_reset(&reviewer);
}

#[test]
fn an_error_of_the_digest_is_handed_on() {
    let mut reviewer = reviewer();
    assert!(matches!(reviewer.review_input(&key_input(), 0, 3, &digests(7, 7)), Ok(Step::Done)));
    let failed = InputDigests { unlock: Err(ErrorCode::InternalError), device: Some([7; 32]) };
    let step = reviewer.review_input(&key_input(), 1, 3, &failed);
    assert_eq!(step.unwrap_err(), ErrorCode::InternalError);
    assert_reset(&reviewer);
    let script = TxInput { unlock_script: UnlockScript::P2SH };
    let failed = InputDigests { unlock: Err(ErrorCode::Overflow), device: Some([7; 32]) };
    assert_eq!(reviewer.review_input(&script, 0, 3, &failed).unwrap_err(), ErrorCode::Overflow);
}

#[test]
fn headings_that_do_not_fit_are_an_overflow() {
    // "Inputs #1000 - #1001" takes 20 bytes, two more than there are
    let mut reviewer = reviewer();
    assert!(matches!(
        reviewer.review_input(&key_input(), 1000, 2000, &digests(7, 7)),
        Ok(Step::Done)
    ));
    assert!(matches!(
        reviewer.review_input(&key_input(), 1001, 2000, &digests(7, 7)),
        Ok(Step::Done)
    ));
    let step = reviewer.review_input(&key_input(), 1002, 2000, &digests(9, 7));
    assert_eq!(step.unwrap_err(), ErrorCode::Overflow);
    assert_reset(&reviewer);
    // "Inputs #100 - #101" takes all 18
    assert!(matches!(
        reviewer.review_input(&key_input(), 100, 2000, &digests(7, 7)),
        Ok(Step::Done)
    ));
    let step = reviewer.review_input(&key_input(), 102, 2000, &digests(9, 7));
    let screen = match step {
        Ok(Step::Show(screen)) => screen,
        other => panic!("{:?}", other),
    };
    assert_eq!(screen.message, "Inputs #100 - #101");
    // an index that the record of a run cannot hold
    let mut reviewer = self::reviewer();
    let step = reviewer.review_input(&key_input(), 65536, 70000, &digests(7, 7));
    assert_eq!(step.unwrap_err(), ErrorCode::Overflow);
    let step = reviewer.review_input(&key_input(), 65535, 70000, &digests(7, 7));
    assert!(matches!(step, Ok(Step::Done)));
    assert_eq!(
        reviewer.get_previous_input(),
        Some(InputInfo { length: 44, input_index: 65535 })
    );
}

#[test]
fn a_buffer_too_small_for_a_run_is_an_overflow() {
    let mut reviewer = TxReviewer::new(StagingBuffer::new(43));
    let step = reviewer.review_input(&key_input(), 0, 2, &digests(7, 9));
    assert_eq!(step.unwrap_err(), ErrorCode::Overflow);
    assert_reset(&reviewer);
    // room for the address, none for the heading
    let mut reviewer = TxReviewer::new(StagingBuffer::new(50));
    assert!(matches!(reviewer.review_input(&key_input(), 0, 2, &digests(7, 9)), Ok(Step::Done)));
    let step = reviewer.review_input(&key_input(), 1, 2, &digests(7, 9));
    assert_eq!(step.unwrap_err(), ErrorCode::Overflow);
    assert_reset(&reviewer);
    let mut reviewer = TxReviewer::new(StagingBuffer::new(51));
    let step = reviewer.review_input(&key_input(), 0, 1, &digests(7, 9));
    assert_eq!(step.unwrap_err(), ErrorCode::Overflow);
    let mut reviewer = TxReviewer::new(StagingBuffer::new(52));
    let step = reviewer.review_input(&key_input(), 0, 1, &digests(7, 9));
    assert!(matches!(step, Ok(Step::Show(_))));
}

#[test]
fn the_fee_is_shown_in_the_native_unit() {
    let mut reviewer = reviewer();
    let fee = TxFee(Some(amount(2_000_000_000_000_000)));
    let step = reviewer.review_tx_fee(&fee);
    let screen = match step {
        Ok(Step::Show(screen)) => screen,
        other => panic!("{:?}", other),
    };
    assert_eq!(screen.message, "Fees ");
    assert_eq!(fields_of(&screen), vec![pair("Fees", "0.002 ALPH")]);
    assert_eq!(reviewer.read_all(), b"0.002 ALPH");
    assert_eq!(reviewer.get_index(), 10);
    assert!(matches!(reviewer.confirm(true), Ok(Step::Done)));
    assert_reset(&reviewer);
}

#[test]
fn a_fee_that_cannot_be_shown_is_an_overflow() {
    let mut reviewer = reviewer();
    assert_eq!(reviewer.review_tx_fee(&TxFee(None)).unwrap_err(), ErrorCode::Overflow);
    assert_reset(&reviewer);
    // 33 digits and the point do not fit the 33 bytes of an amount
    let huge = TxFee(Some(amount(123_456_789_012_345_678_901_234_567_890_123)));
    assert_eq!(reviewer.review_tx_fee(&huge).unwrap_err(), ErrorCode::Overflow);
    assert_reset(&reviewer);
    let mut small = TxReviewer::new(StagingBuffer::new(9));
    let fee = TxFee(Some(amount(2_000_000_000_000_000)));
    assert_eq!(small.review_tx_fee(&fee).unwrap_err(), ErrorCode::Overflow);
    assert_reset(&small);
}

#[test]
fn a_rejected_fee_cancels_the_review() {
    let mut reviewer = reviewer();
    let fee = TxFee(Some(amount(1_000_000_000_000_000_000)));
    assert!(matches!(reviewer.review_tx_fee(&fee), Ok(Step::Show(_))));
    assert_eq!(reviewer.confirm(false).unwrap_err(), ErrorCode::UserCancelled);
    assert_reset(&reviewer);
}

fn key_output(value: u128, token: Option<Token>) -> AssetOutput {
    AssetOutput {
        amount: amount(value),
        lockup_script: LockupScript::P2PKH(Byte32([9; 32])),
        token,
    }
}

#[test]
fn an_output_is_shown_on_one_screen() {
    let mut reviewer = reviewer();
    let output = key_output(1_500_000_000_000_000_000, None);
    let step = reviewer.review_output(&output, 3, &[]);
    let screen = match step {
        Ok(Step::Show(screen)) => screen,
        other => panic!("{:?}", other),
    };
    assert_eq!(screen.message, "Output #3");
    assert_eq!(
        fields_of(&screen),
        vec![pair("Address", ADDRESS_9), pair("ALPH", "1.5 ALPH")]
    );
    assert_eq!(
        reviewer.read_all(),
        format!("Output #31.5 ALPH{}", ADDRESS_9).as_bytes()
    );
    assert!(matches!(reviewer.confirm(true), Ok(Step::Done)));
    assert_reset(&reviewer);
}

#[test]
fn an_output_with_a_token_shows_the_token() {
    let mut reviewer = reviewer();
    let token = Token { id: Byte32([0xab; 32]), amount: amount(u128::MAX) };
    let output = AssetOutput {
        amount: amount(0),
        lockup_script: LockupScript::P2SH(Byte32([7; 32])),
        token: Some(token),
    };
    let step = reviewer.review_output(&output, 0, &[]);
    let screen = match step {
        Ok(Step::Show(screen)) => screen,
        other => panic!("{:?}", other),
    };
    assert_eq!(screen.message, "Output #0");
    assert_eq!(
        fields_of(&screen),
        vec![
            pair("Address", SCRIPT_ADDRESS_7),
            pair("ALPH", "0 ALPH"),
            pair(
                "Token ID",
                "abababababababababababababababababababababababababababababababab"
            ),
            pair("Token Amount", "340282366920938463463374607431768211455"),
        ]
    );
    assert_eq!(reviewer.get_index(), 9 + 6 + 44 + 64 + 39);
    assert_eq!(reviewer.confirm(false).unwrap_err(), ErrorCode::UserCancelled);
    assert_reset(&reviewer);
}

#[test]
fn an_output_to_several_keys_shows_the_script_in_base_58() {
    let mut reviewer = reviewer();
    let mut script = vec![1u8];
    script.extend_from_slice(&[0x42; 99]);
    let output = AssetOutput {
        amount: amount(999_999_999_999),
        lockup_script: LockupScript::P2MPKH,
        token: None,
    };
    let step = reviewer.review_output(&output, 12, &script);
    let screen = match step {
        Ok(Step::Show(screen)) => screen,
        other => panic!("{:?}", other),
    };
    assert_eq!(screen.message, "Output #12");
    assert_eq!(
        fields_of(&screen),
        vec![
            pair(
                "Address",
                "3qaVUqK3N3oNCATydQ1vM3JRtQX7YzGEwTNRUzS5kBh7Dk4PKbd2GTLqKgZ5D2SXm1TCNq46kq22wBWgzUQdKXrbeBJU9pWjaWM6czu5q7byjLrbD82PQpQdgFUvS5A9Q5VHqwAZ"
            ),
            pair("ALPH", "<0.000001 ALPH"),
        ]
    );
    assert!(matches!(reviewer.confirm(true), Ok(Step::Done)));
    assert_reset(&reviewer);
}

#[test]
fn an_output_that_does_not_fit_is_an_overflow() {
    // heading 9, amount 6, address 44
    let mut reviewer = TxReviewer::new(StagingBuffer::new(58));
    let output = key_output(1_000_000_000_000_000_000, None);
    assert_eq!(reviewer.review_output(&output, 3, &[]).unwrap_err(), ErrorCode::Overflow);
    assert_reset(&reviewer);
    let mut reviewer = TxReviewer::new(StagingBuffer::new(59));
    assert!(matches!(reviewer.review_output(&output, 3, &[]), Ok(Step::Show(_))));
    // a token needs 64 bytes and its digits more
    let with_token = key_output(
        1_000_000_000_000_000_000,
        Some(Token { id: Byte32([1; 32]), amount: amount(5) }),
    );
    let mut reviewer = TxReviewer::new(StagingBuffer::new(59 + 64));
    assert_eq!(reviewer.review_output(&with_token, 3, &[]).unwrap_err(), ErrorCode::Overflow);
    let mut reviewer = TxReviewer::new(StagingBuffer::new(59 + 65));
    assert!(matches!(reviewer.review_output(&with_token, 3, &[]), Ok(Step::Show(_))));
    // "Output #100000" takes 14 bytes, one more than there are
    let mut reviewer = self::reviewer();
    assert_eq!(reviewer.review_output(&output, 100000, &[]).unwrap_err(), ErrorCode::Overflow);
    assert!(matches!(reviewer.review_output(&output, 99999, &[]), Ok(Step::Show(_))));
    // an amount of 33 digits
    let mut reviewer = self::reviewer();
    let huge = key_output(123_456_789_012_345_678_901_234_567_890_123, None);
    assert_eq!(reviewer.review_output(&huge, 0, &[]).unwrap_err(), ErrorCode::Overflow);
    assert_reset(&reviewer);
}

#[test]
fn the_network_is_named() {
    let screen = TxReviewer::review_network(0);
    assert_eq!(screen.message, "Network ");
    assert_eq!(fields_of(&screen), vec![pair("Network", "mainnet")]);
    assert_eq!(fields_of(&TxReviewer::review_network(1)), vec![pair("Network", "testnet")]);
    assert_eq!(fields_of(&TxReviewer::review_network(2)), vec![pair("Network", "devnet")]);
    assert_eq!(fields_of(&TxReviewer::review_network(255)), vec![pair("Network", "devnet")]);
}

#[test]
fn the_transaction_id_is_shown_in_hexadecimal() {
    let mut id = [0u8; 32];
    id[0] = 0xde;
    id[1] = 0xad;
    id[31] = 0x0f;
    let screen = TxReviewer::review_tx_id(&id).unwrap();
    assert_eq!(screen.message, "Transaction ID");
    assert_eq!(
        fields_of(&screen),
        vec![pair(
            "Transaction ID",
            "dead00000000000000000000000000000000000000000000000000000000000f"
        )]
    );
}

#[test]
fn fields_are_reviewed_as_they_come() {
    let mut reviewer = reviewer();
    let temp_data = StagingBuffer::new(256);
    let own = digests(7, 7);
    let mut shown: Vec<String> = Vec::new();
    let mut review = |reviewer: &mut TxReviewer, field: UnsignedTx, temp: &StagingBuffer| {
        let step = reviewer.review_tx_details(&field, &own, temp);
        for screen in approve_all(reviewer, step).unwrap() {
            shown.push(format!("{}|{:?}", screen.message, fields_of(&screen)));
        }
        assert_eq!(reviewer.get_index(), reviewer.get_previous_input().map_or(0, |p| p.length as usize));
    };
    review(&mut reviewer, UnsignedTx::Other, &temp_data);
    review(&mut reviewer, UnsignedTx::NetworkId(1), &temp_data);
    review(&mut reviewer, UnsignedTx::TxFee(TxFee(Some(amount(10u128.pow(17))))), &temp_data);
    let inputs = |item: Option<TxInput>, index: u16| {
        UnsignedTx::Inputs(AVector { current_item: item, current_index: index, total_size: 2 })
    };
    review(&mut reviewer, inputs(None, 0), &temp_data);
    review(&mut reviewer, inputs(Some(key_input()), 0), &temp_data);
    review(&mut reviewer, inputs(Some(key_input()), 1), &temp_data);
    let outputs = |item: Option<AssetOutput>, index: u16| {
        UnsignedTx::FixedOutputs(AVector { current_item: item, current_index: index, total_size: 2 })
    };
    review(&mut reviewer, outputs(None, 0), &temp_data);
    review(&mut reviewer, outputs(Some(key_output(10u128.pow(18), None)), 0), &temp_data);
    let mut script = StagingBuffer::new(256);
    script.write(&[1, 2, 3]).unwrap();
    let several = AssetOutput {
        amount: amount(10u128.pow(19)),
        lockup_script: LockupScript::P2MPKH,
        token: None,
    };
    review(&mut reviewer, outputs(Some(several), 1), &script);
    assert_eq!(
        shown,
        vec![
            format!("Network |{:?}", vec![pair("Network", "testnet")]),
            format!("Fees |{:?}", vec![pair("Fees", "0.1 ALPH")]),
            format!(
                "Output #0|{:?}",
                vec![pair("Address", ADDRESS_9), pair("ALPH", "1 ALPH")]
            ),
            format!("Output #1|{:?}", vec![pair("Address", "Ldp"), pair("ALPH", "10 ALPH")]),
        ]
    );
    assert_reset(&reviewer);
}

#[test]
fn a_rejected_network_cancels_the_review() {
    let mut reviewer = reviewer();
    let temp_data = StagingBuffer::new(16);
    let step = reviewer.review_tx_details(&UnsignedTx::NetworkId(0), &digests(7, 7), &temp_data);
    assert!(matches!(step, Ok(Step::Show(_))));
    assert_eq!(reviewer.confirm(false).unwrap_err(), ErrorCode::UserCancelled);
    assert_reset(&reviewer);
    // an approved network leaves a run of inputs as it is
    assert!(matches!(reviewer.review_input(&key_input(), 0, 2, &digests(7, 7)), Ok(Step::Done)));
    let step = reviewer.review_tx_details(&UnsignedTx::NetworkId(0), &digests(7, 7), &temp_data);
    assert!(matches!(step, Ok(Step::Show(_))));
    assert!(matches!(reviewer.confirm(true), Ok(Step::Done)));
    assert_eq!(reviewer.get_index(), 44);
    assert_eq!(reviewer.get_previous_input(), Some(InputInfo { length: 44, input_index: 0 }));
}

#[test]
fn reset_forgets_the_run() {
    let mut reviewer = reviewer();
    assert!(matches!(reviewer.review_input(&key_input(), 0, 2, &digests(7, 9)), Ok(Step::Done)));
    assert_eq!(reviewer.get_index(), 44);
    reviewer.reset();
    assert_reset(&reviewer);
    assert_eq!(LockupScript::P2PKH(Byte32([0; 32])).get_type(), 0);
    assert_eq!(LockupScript::P2MPKH.get_type(), 1);
    assert_eq!(LockupScript::P2SH(Byte32([0; 32])).get_type(), 2);
    let list = AVector { current_item: Some(5u8), current_index: 3, total_size: 9 };
    assert_eq!(list.get_current_item(), Some(&5u8));
    assert_eq!(list.size(), 9);
    assert_eq!(TxFee(None).get().is_none(), true);
}
