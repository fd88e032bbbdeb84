//! The review that streams one screen after another into one session of the
//! display and ends with the signature: what the session is asked next, and
//! what the user's answers make of the review.

use crate::error::ErrorCode;
use crate::tx_reviewer::Field;
use vstd::prelude::*;

verus! {

/// What an answer of the user makes of the review, and the status screen
/// that the display closes the session with, if it does: `Some(true)` for a
/// review that succeeded, `Some(false)` for one that was rejected.
#[derive(Debug)]
pub struct Reply {
    pub result: Result<(), ErrorCode>,
    pub status: Option<bool>,
}

impl Reply {
    /// The answer that goes on with the review.
    pub open spec fn proceed() -> Reply {
        Reply { result: Ok(()), status: None }
    }

    /// The answer that ends the review with the signature.
    pub open spec fn signed() -> Reply {
        Reply { result: Ok(()), status: Some(true) }
    }

    /// The answer that cancels the review.
    pub open spec fn rejected() -> Reply {
        Reply { result: Err(ErrorCode::UserCancelled), status: Some(false) }
    }

    /// The reply to an answer that lets the review go on if it approves.
    pub open spec fn to_step(approved: bool) -> Reply {
        if approved {
            Self::proceed()
        } else {
            Self::rejected()
        }
    }
}

/// What follows the screen with the fee.
#[derive(Debug)]
pub enum FinishStep {
    /// The session is asked to close with the prompt given, for the signature.
    Sign(&'static str),
    /// The review is over.
    Stop(Reply),
}

/// The state of a streaming review.
pub struct TxReviewerInner {
    pub review_started: bool,
    pub display_settings: bool,
    is_tx_execute_script: bool,
    reviewer: bool,
}

impl TxReviewerInner {
    /// Whether the user has approved the start of the review.
    pub closed spec fn started(&self) -> bool {
        self.review_started
    }

    /// Whether the settings are on display.
    pub closed spec fn displays_settings(&self) -> bool {
        self.display_settings
    }

    /// Whether the transaction runs a script.
    pub closed spec fn is_tx_execute_script(&self) -> bool {
        self.is_tx_execute_script
    }

    /// Whether a session of the display is open.
    pub closed spec fn has_reviewer(&self) -> bool {
        self.reviewer
    }

    /// The prompt for the signature.
    pub open spec fn sign_message(script: bool) -> Seq<char> {
        if script {
            "Accept risk and sign transaction"@
        } else {
            "Sign transaction to send assets"@
        }
    }

    /// The state before a review: nothing started, no session open.
    pub fn new() -> (inner: TxReviewerInner)
        ensures
            !inner.started(),
            !inner.displays_settings(),
            !inner.is_tx_execute_script(),
            !inner.has_reviewer(),
    {
        TxReviewerInner {
            review_started: false,
            display_settings: false,
            is_tx_execute_script: false,
            reviewer: false,
        }
    }

    /// Whether a session of the display is open.
    pub fn get_reviewer(&self) -> (open: bool)
        ensures
            open == self.has_reviewer(),
    {
        self.reviewer
    }

    /// Whether the user has approved the start of the review.
    pub fn is_review_started(&self) -> (started: bool)
        ensures
            started == self.started(),
    {
        self.review_started
    }

    /// Whether the settings are on display.
    pub fn is_display_settings(&self) -> (displayed: bool)
        ensures
            displayed == self.displays_settings(),
    {
        self.display_settings
    }

    /// Whether the transaction runs a script.
    pub fn get_tx_execute_script(&self) -> (script: bool)
        ensures
            script == self.is_tx_execute_script(),
    {
        self.is_tx_execute_script
    }

    /// Notes whether the settings are on display.
    pub fn set_display_settings(&mut self, display_settings: bool)
        ensures
            final(self).displays_settings() == display_settings,
            final(self).started() == old(self).started(),
            final(self).is_tx_execute_script() == old(self).is_tx_execute_script(),
            final(self).has_reviewer() == old(self).has_reviewer(),
    {
        self.display_settings = display_settings;
    }

    /// Notes whether the transaction runs a script, and that the session for
    /// its review is open from now on.
    pub fn set_tx_execute_script(&mut self, is_tx_execute_script: bool)
        requires
            !old(self).has_reviewer(),
        ensures
            final(self).is_tx_execute_script() == is_tx_execute_script,
            final(self).has_reviewer(),
            final(self).started() == old(self).started(),
            final(self).displays_settings() == old(self).displays_settings(),
    {
        self.is_tx_execute_script = is_tx_execute_script;
        self.reviewer = true;
    }

    /// The prompt that the session starts with.
    pub fn start_message(&self) -> (message: &'static str)
        ensures
            message@ == (if self.is_tx_execute_script() {
                "Review transaction"@
            } else {
                "Review transaction to send assets"@
            }),
    {
        if self.is_tx_execute_script {
            "Review transaction"
        } else {
            "Review transaction to send assets"
        }
    }

    /// Takes the user's answer to the start of the review: an approval
    /// starts it, a rejection cancels it.
    pub fn start_review(&mut self, approved: bool) -> (reply: Reply)
        requires
            old(self).has_reviewer(),
        ensures
            reply == Reply::to_step(approved),
            final(self).started() == (approved || old(self).started()),
            final(self).displays_settings() == old(self).displays_settings(),
            final(self).is_tx_execute_script() == old(self).is_tx_execute_script(),
            final(self).has_reviewer(),
    {
        if approved {
            self.review_started = true;
            Reply { result: Ok(()), status: None }
        } else {
            Reply { result: Err(ErrorCode::UserCancelled), status: Some(false) }
        }
    }

    /// Takes the user's answer to a screen of fields in the middle of the
    /// review.
    pub fn review_fields(&self, approved: bool) -> (reply: Reply)
        requires
            self.has_reviewer(),
        ensures
            reply == Reply::to_step(approved),
    {
        if approved {
            Reply { result: Ok(()), status: None }
        } else {
            Reply { result: Err(ErrorCode::UserCancelled), status: Some(false) }
        }
    }

    /// The fields that end the review of a transfer to the sender's own
    /// address: the fee, and in front of it, unless the transaction runs a
    /// script, `"Self-transfer"` in place of an amount.
    pub fn review_self_transfer(&self, fee_field: Field) -> (fields: Vec<Field>)
        ensures
            self.is_tx_execute_script() ==> fields@ == seq![fee_field],
            !self.is_tx_execute_script() ==> fields@.len() == 2 && fields@[0].name@ == "Amount"@
                && fields@[0].value@ == "Self-transfer"@ && fields@[1] == fee_field,
    {
        let mut fields: Vec<Field> = Vec::new();
        if !self.is_tx_execute_script {
            fields.push(Field { name: "Amount", value: "Self-transfer".to_owned() });
        }
        fields.push(fee_field);
        fields
    }

    /// Takes the user's answer to the warning that the transaction has inputs
    /// from addresses that are not the device's.
    pub fn warning_external_inputs(&self, approved: bool) -> (result: Result<(), ErrorCode>)
        ensures
            result == (if approved {
                Ok::<(), ErrorCode>(())
            } else {
                Err::<(), ErrorCode>(ErrorCode::UserCancelled)
            }),
    {
        if approved {
            Ok(())
        } else {
            Err(ErrorCode::UserCancelled)
        }
    }

    /// Takes the user's answer to the screen with the fee, which is the last
    /// before the signature. The settings are off display from here on. An
    /// approval makes the session close with the prompt for the signature; a
    /// rejection cancels the review.
    pub fn finish_review(&mut self, approved: bool) -> (step: FinishStep)
        requires
            old(self).has_reviewer(),
        ensures
            !final(self).displays_settings(),
            final(self).started() == old(self).started(),
            final(self).is_tx_execute_script() == old(self).is_tx_execute_script(),
            final(self).has_reviewer(),
            !approved ==> step == FinishStep::Stop(Reply::rejected()),
            approved ==> (step matches FinishStep::Sign(message) && message@ == Self::sign_message(
                old(self).is_tx_execute_script(),
            )),
    {
        self.display_settings = false;
        if !approved {
            return FinishStep::Stop(
                Reply { result: Err(ErrorCode::UserCancelled), status: Some(false) },
            );
        }
        if self.is_tx_execute_script {
            FinishStep::Sign("Accept risk and sign transaction")
        } else {
            FinishStep::Sign("Sign transaction to send assets")
        }
    }

    /// Takes the user's answer to the prompt for the signature.
    pub fn finish_signing(&self, approved: bool) -> (reply: Reply)
        requires
            self.has_reviewer(),
        ensures
            reply == (if approved {
                Reply::signed()
            } else {
                Reply::rejected()
            }),
    {
        if approved {
            Reply { result: Ok(()), status: Some(true) }
        } else {
            Reply { result: Err(ErrorCode::UserCancelled), status: Some(false) }
        }
    }

    /// Ends the review: nothing is started and no session is open. Whether
    /// the settings are on display is left as it is, since a review is also
    /// ended when a check before it fails.
    pub fn reset(&mut self)
        ensures
            !final(self).started(),
            !final(self).is_tx_execute_script(),
            !final(self).has_reviewer(),
            final(self).displays_settings() == old(self).displays_settings(),
    {
        self.review_started = false;
        self.reviewer = false;
        self.is_tx_execute_script = false;
    }

    /// Whether the index of an output is shown as a field of its own.
    pub fn output_index_as_field(&self) -> (as_field: bool)
        ensures
            as_field,
    {
        true
    }
}

} // verus!
