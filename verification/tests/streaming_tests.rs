use tx_review::error::ErrorCode;
use tx_review::tx_reviewer::Field;
use tx_review::tx_reviewer_inner::{FinishStep, TxReviewerInner};

fn fee_field() -> Field {
    Field { name: "Fees", value: "0.002 ALPH".to_string() }
}

#[test]
fn a_streaming_review_that_is_approved() {
    let mut inner = TxReviewerInner::new();
    assert!(!inner.review_started);
    assert!(!inner.display_settings);
    assert!(!inner.get_reviewer());
    assert!(inner.output_index_as_field());
    inner.set_display_settings(true);
    inner.set_tx_execute_script(false);
    assert!(inner.get_reviewer());
    assert!(!inner.get_tx_execute_script());
    assert_eq!(inner.start_message(), "Review transaction to send assets");
    let reply = inner.start_review(true);
    assert_eq!(reply.result, Ok(()));
    assert_eq!(reply.status, None);
    assert!(inner.review_started);
    assert!(inner.is_review_started());
    let reply = inner.review_fields(true);
    assert_eq!(reply.result, Ok(()));
    assert_eq!(reply.status, None);
    assert!(inner.display_settings);
    let message = match inner.finish_review(true) {
        FinishStep::Sign(message) => message,
        other => panic!("{:?}", other),
    };
    assert_eq!(message, "Sign transaction to send assets");
    assert!(!inner.display_settings);
    assert!(!inner.is_display_settings());
    let reply = inner.finish_signing(true);
    assert_eq!(reply.result, Ok(()));
    assert_eq!(reply.status, Some(true));
    inner.reset();
    assert!(!inner.review_started);
    assert!(!inner.get_reviewer());
}

#[test]
fn a_streaming_review_of_a_script() {
    let mut inner = TxReviewerInner::new();
    inner.set_tx_execute_script(true);
    assert!(inner.get_tx_execute_script());
    assert_eq!(inner.start_message(), "Review transaction");
    let message = match inner.finish_review(true) {
        FinishStep::Sign(message) => message,
        other => panic!("{:?}", other),
    };
    assert_eq!(message, "Accept risk and sign transaction");
    let fields = inner.review_self_transfer(fee_field());
    assert_eq!(fields.len(), 1);
    assert_eq!(fields[0].name, "Fees");
    assert_eq!(fields[0].value, "0.002 ALPH");
    inner.set_display_settings(true);
    inner.reset();
    assert!(!inner.get_tx_execute_script());
    assert!(inner.display_settings);
}

#[test]
fn a_transfer_to_oneself_is_named() {
    let mut inner = TxReviewerInner::new();
    inner.set_tx_execute_script(false);
    let fields = inner.review_self_transfer(fee_field());
    assert_eq!(fields.len(), 2);
    assert_eq!(fields[0].name, "Amount");
    assert_eq!(fields[0].value, "Self-transfer");
    assert_eq!(fields[1].name, "Fees");
    assert_eq!(fields[1].value, "0.002 ALPH");
}

#[test]
fn rejections_in_a_streaming_review() {
    let mut inner = TxReviewerInner::new();
    inner.set_tx_execute_script(false);
    let reply = inner.start_review(false);
    assert_eq!(reply.result, Err(ErrorCode::UserCancelled));
    assert_eq!(reply.status, Some(false));
    assert!(!inner.review_started);
    let reply = inner.review_fields(false);
    assert_eq!(reply.result, Err(ErrorCode::UserCancelled));
    assert_eq!(reply.status, Some(false));
    inner.set_display_settings(true);
    match inner.finish_review(false) {
        FinishStep::Stop(reply) => {
            assert_eq!(reply.result, Err(ErrorCode::UserCancelled));
            assert_eq!(reply.status, Some(false));
        }
        other => panic!("{:?}", other),
    }
    assert!(!inner.display_settings);
    let reply = inner.finish_signing(false);
    assert_eq!(reply.result, Err(ErrorCode::UserCancelled));
    assert_eq!(reply.status, Some(false));
    assert_eq!(inner.warning_external_inputs(true), Ok(()));
    assert_eq!(inner.warning_external_inputs(false), Err(ErrorCode::UserCancelled));
}
