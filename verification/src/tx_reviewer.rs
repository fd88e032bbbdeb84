//! The review engine: it stages the text of one transaction field after
//! another, says which screen the trusted display has to show, and goes on
//! or gives up according to the user's answer.
//!
//! The engine never talks to the display itself. A review function returns a
//! `Step`: either the field is dealt with, or a `Screen` is to be shown. The
//! host shows the screen and hands the user's answer to `confirm`, which
//! returns the next step. A rejection, like any error, resets the engine.
//!
//! Consecutive inputs with one address form a run, which is shown on one
//! screen when it ends. While a run is under way its address is kept at the
//! start of the staging buffer; everything else that is staged is dropped
//! when its field is complete.

use crate::base58::{
    all_digits58, alphabet_char, base58_char, base58_encode, base58_encoding, base58_text,
    carry_pass, carry_pass_in_place, digits58_le, lemma_carry_pass_concat,
    lemma_carry_pass_digits, lemma_carry_pass_shape, lemma_digits58_bound,
    lemma_base58_ascii, lemma_digits58_len_monotonic, lemma_encoding_fits,
};
use crate::bytes::{copy_into, same_bytes};
use crate::error::ErrorCode;
use crate::numeral::{
    be_value, decimal_text, lemma_be_value_prefix_le, lemma_be_value_take,
    lemma_digits10_len_bound, lemma_pow10_values,
};
use crate::staging::StagingBuffer;
use crate::text::{
    bytes_to_string, hex_text, index_to_str, is_ascii_bytes, lemma_decimal_text_ascii,
    lemma_hex_text_ascii, to_hex,
};
use crate::types::{
    AssetOutput, Byte32, InputDigests, LockupScript, TxFee, TxInput, UnlockScript, UnsignedTx,
};
use crate::u256::{alph_fits, alph_text, lemma_alph_text_ascii, lemma_decimal_fits, U256};
use vstd::pervasive::unreached;
use vstd::prelude::*;
use vstd::utf8::{encode_utf8, valid_utf8};

verus! {

/// The input that opened the run of inputs under way, and the length of the
/// run's address, which is staged at the start of the buffer.
#[derive(Clone, Copy, Debug, PartialEq, Eq, Structural)]
pub struct InputInfo {
    pub length: u16,
    pub input_index: u16,
}

/// Where the texts of a token are staged.
#[derive(Clone, Copy, Debug)]
pub struct TokenIndexes {
    pub token_id: (usize, usize),
    pub token_amount: (usize, usize),
}

/// Where the texts of an output are staged.
#[derive(Clone, Copy, Debug)]
pub struct OutputIndexes {
    pub review_message: (usize, usize),
    pub alph_amount: (usize, usize),
    pub address: (usize, usize),
    pub token: Option<TokenIndexes>,
}

/// One named value on a screen.
#[derive(Debug)]
pub struct Field {
    pub name: &'static str,
    pub value: String,
}

/// What the display has to show for one approval: a heading and named values.
#[derive(Debug)]
pub struct Screen {
    pub message: String,
    pub fields: Vec<Field>,
}

impl Screen {
    /// Whether the screen shows the heading and the named values given, both
    /// as the bytes of their text.
    pub open spec fn shows(&self, message: Seq<u8>, fields: Seq<(Seq<char>, Seq<u8>)>) -> bool {
        &&& encode_utf8(self.message@) == message
        &&& self.fields@.len() == fields.len()
        &&& forall|i: int|
            0 <= i < fields.len() ==> (#[trigger] self.fields@[i]).name@ == fields[i].0
                && encode_utf8(self.fields@[i].value@) == fields[i].1
    }
}

/// What a review call leaves for the host to do.
#[derive(Debug)]
pub enum Step {
    /// The field is dealt with.
    Done,
    /// The screen is to be shown, and the user's answer handed to `confirm`.
    Show(Screen),
}

/// The input whose run opens once the screen of the run before it is approved.
#[derive(Clone, Copy, Debug)]
pub struct RunStart {
    pub input_index: usize,
    pub input_size: usize,
    pub address: [u8; 46],
    pub length: usize,
    pub device: Option<[u8; 32]>,
}

impl RunStart {
    /// The address of the run.
    pub open spec fn address_text(&self) -> Seq<u8> {
        self.address@.take(self.length as int)
    }

    /// Whether the run can open: its address is ASCII text of at most 46
    /// bytes, and its index is below the number of inputs and fits the
    /// record of a run.
    pub open spec fn valid(&self) -> bool {
        &&& self.length <= 46
        &&& self.input_index < self.input_size
        &&& self.input_index <= u16::MAX
        &&& is_ascii_bytes(self.address_text())
    }
}

/// What the engine does when the screen it asked for is approved.
#[derive(Clone, Copy, Debug)]
pub enum Pending {
    /// Nothing: the state stays as it is.
    Nothing,
    /// The field is complete: the staging buffer is reset.
    Reset,
    /// The run that was shown is complete and the next one opens.
    OpenRun(RunStart),
}

/// `"multi-sig-address"`, which stands for the address of an input that
/// several keys unlock.
pub open spec fn multisig_placeholder() -> Seq<u8> {
    seq![
        'm' as u8, 'u' as u8, 'l' as u8, 't' as u8, 'i' as u8, '-' as u8, 's' as u8, 'i' as u8,
        'g' as u8, '-' as u8, 'a' as u8, 'd' as u8, 'd' as u8, 'r' as u8, 'e' as u8, 's' as u8,
        's' as u8,
    ]
}

/// `"Input #"`.
pub open spec fn input_prefix() -> Seq<u8> {
    seq!['I' as u8, 'n' as u8, 'p' as u8, 'u' as u8, 't' as u8, ' ' as u8, '#' as u8]
}

/// `"Inputs #"`.
pub open spec fn inputs_prefix() -> Seq<u8> {
    seq!['I' as u8, 'n' as u8, 'p' as u8, 'u' as u8, 't' as u8, 's' as u8, ' ' as u8, '#' as u8]
}

/// `" - #"`.
pub open spec fn range_separator() -> Seq<u8> {
    seq![' ' as u8, '-' as u8, ' ' as u8, '#' as u8]
}

/// `"Output #"`.
pub open spec fn output_prefix() -> Seq<u8> {
    seq!['O' as u8, 'u' as u8, 't' as u8, 'p' as u8, 'u' as u8, 't' as u8, ' ' as u8, '#' as u8]
}

/// `"Fees "`.
pub open spec fn fees_message() -> Seq<u8> {
    seq!['F' as u8, 'e' as u8, 'e' as u8, 's' as u8, ' ' as u8]
}

/// `"Network "`.
pub open spec fn network_message() -> Seq<u8> {
    seq!['N' as u8, 'e' as u8, 't' as u8, 'w' as u8, 'o' as u8, 'r' as u8, 'k' as u8, ' ' as u8]
}

/// `"Transaction ID"`.
pub open spec fn tx_id_message() -> Seq<u8> {
    seq![
        'T' as u8, 'r' as u8, 'a' as u8, 'n' as u8, 's' as u8, 'a' as u8, 'c' as u8, 't' as u8,
        'i' as u8, 'o' as u8, 'n' as u8, ' ' as u8, 'I' as u8, 'D' as u8,
    ]
}

/// The name of a network: `"mainnet"` for 0, `"testnet"` for 1, `"devnet"` else.
pub open spec fn network_name(id: u8) -> Seq<u8> {
    if id == 0 {
        seq!['m' as u8, 'a' as u8, 'i' as u8, 'n' as u8, 'n' as u8, 'e' as u8, 't' as u8]
    } else if id == 1 {
        seq!['t' as u8, 'e' as u8, 's' as u8, 't' as u8, 'n' as u8, 'e' as u8, 't' as u8]
    } else {
        seq!['d' as u8, 'e' as u8, 'v' as u8, 'n' as u8, 'e' as u8, 't' as u8]
    }
}

/// The heading for the run of the inputs from `first` up to, not including,
/// `next`: `"Input #k"` for one input, `"Inputs #k - #m"` for more.
pub open spec fn run_label(first: nat, next: nat) -> Seq<u8> {
    if next == first + 1 {
        input_prefix() + decimal_text(first)
    } else {
        inputs_prefix() + decimal_text(first) + range_separator() + decimal_text(
            (next - 1) as nat,
        )
    }
}

/// Whether the heading of a run fits the bytes set aside for it: 13 for one
/// input, 18 for more.
pub open spec fn run_label_fits(first: nat, next: nat) -> bool {
    if next == first + 1 {
        run_label(first, next).len() <= 13
    } else {
        run_label(first, next).len() <= 18
    }
}

/// The heading of an output, `"Output #k"`.
pub open spec fn output_label(index: nat) -> Seq<u8> {
    output_prefix() + decimal_text(index)
}

/// The address of a hash under the script kind `prefix`: the base-58 encoding
/// of the prefix followed by the hash.
pub open spec fn address_text(prefix: u8, hash: Seq<u8>) -> Seq<u8> {
    base58_encoding(seq![prefix] + hash)
}

/// Writes the address of `hash` under the script kind `prefix` to the front of
/// `output` and returns it, or fails with `Overflow` when `output` is shorter
/// than the address.
pub fn to_base58_address<'a>(prefix: u8, hash: &[u8; 32], output: &'a mut [u8]) -> (text: Result<
    &'a [u8],
    ErrorCode,
>)
    ensures
        text is Ok <==> address_text(prefix, hash@).len() <= old(output)@.len(),
        text matches Ok(t) ==> t@ == address_text(prefix, hash@) && final(output)@.take(
            t@.len() as int,
        ) == t@,
        text matches Err(e) ==> e == ErrorCode::Overflow,
        final(output)@.len() == old(output)@.len(),
        address_text(prefix, hash@).len() <= 46,
{
    proof {
        lemma_encoding_fits(seq![prefix] + hash@);
    }
    let mut payload = [0u8; 33];
    payload[0] = prefix;
    copy_into(&mut payload, 1, hash.as_slice());
    assert(payload@ =~= seq![prefix] + hash@);
    match base58_encode(payload.as_slice(), output) {
        Some(t) => Ok(t),
        None => Err(ErrorCode::Overflow),
    }
}

/// The owned text of ASCII bytes.
fn ascii_string(bytes: &[u8]) -> (text: String)
    requires
        is_ascii_bytes(bytes@),
    ensures
        encode_utf8(text@) == bytes@,
{
    match bytes_to_string(bytes) {
        Ok(s) => s.to_owned(),
        Err(_) => unreached(),
    }
}

/// Whether an output can be reviewed: its amounts are encodings that fit
/// their storage.
pub open spec fn output_is_valid(output: &AssetOutput) -> bool {
    &&& output.amount.valid()
    &&& output.token matches Some(t) ==> t.amount.valid()
}

/// The address that an output pays to: the address of the hash for a key or
/// a script, and for several keys the base-58 text of the script's bytes,
/// which come as temporary data.
pub open spec fn output_address(output: &AssetOutput, temp_data: Seq<u8>) -> Seq<u8> {
    match output.lockup_script {
        LockupScript::P2PKH(hash) => address_text(0, hash.0@),
        LockupScript::P2SH(hash) => address_text(2, hash.0@),
        LockupScript::P2MPKH => base58_text(be_value(temp_data)),
    }
}

/// The texts of an output's token, identifier then amount; empty without one.
pub open spec fn token_staging(output: &AssetOutput) -> Seq<u8> {
    match output.token {
        Some(t) => hex_text(t.id.0@) + decimal_text(t.amount.value()),
        None => Seq::empty(),
    }
}

/// All that is staged for an output, in order: heading, amount, address,
/// and the token's identifier and amount if it has one.
pub open spec fn output_staging(output: &AssetOutput, index: nat, temp_data: Seq<u8>) -> Seq<u8> {
    output_label(index) + alph_text(output.amount.value()) + output_address(output, temp_data)
        + token_staging(output)
}

/// Whether the heading and the amount of an output fit the bytes set aside
/// for them, 13 and 33.
pub open spec fn output_fits(output: &AssetOutput, index: nat) -> bool {
    &&& output_label(index).len() <= 13
    &&& alph_fits(output.amount.value(), 33)
}

/// The named values on the screen of an output.
pub open spec fn output_fields(output: &AssetOutput, temp_data: Seq<u8>) -> Seq<
    (Seq<char>, Seq<u8>),
> {
    let base = seq![
        ("Address"@, output_address(output, temp_data)),
        ("ALPH"@, alph_text(output.amount.value())),
    ];
    match output.token {
        Some(t) => base + seq![
            ("Token ID"@, hex_text(t.id.0@)),
            ("Token Amount"@, decimal_text(t.amount.value())),
        ],
        None => base,
    }
}

/// Whether `range` reaches from offset `from` up to offset `to`.
pub open spec fn spans(range: (usize, usize), from: nat, to: nat) -> bool {
    range.0 == from && range.1 == to
}

/// Whether `ranges` lay out the texts of an output's token one after the
/// other from offset `start` on; without a token there are no ranges.
pub open spec fn token_laid_out(ranges: Option<TokenIndexes>, start: nat, output: &AssetOutput) -> bool {
    match output.token {
        Some(t) => ranges matches Some(token) && spans(token.token_id, start, start + 64) && spans(
            token.token_amount,
            start + 64,
            start + 64 + decimal_text(t.amount.value()).len(),
        ),
        None => ranges is None,
    }
}

/// Whether `ranges` lay out the texts of an output one after another from
/// offset `start` on.
pub open spec fn laid_out(
    ranges: OutputIndexes,
    start: nat,
    output: &AssetOutput,
    index: nat,
    temp_data: Seq<u8>,
) -> bool {
    let label_end = start + output_label(index).len();
    let amount_end = label_end + alph_text(output.amount.value()).len();
    let address_end = amount_end + output_address(output, temp_data).len();
    &&& spans(ranges.review_message, start, label_end)
    &&& spans(ranges.alph_amount, label_end, amount_end)
    &&& spans(ranges.address, amount_end, address_end)
    &&& token_laid_out(ranges.token, address_end, output)
}

/// The address that an input's own unlock script stands for: the address of
/// the digest under the prefix 0 for a key and 2 for a script, the
/// placeholder for several keys, and none for an input that repeats the
/// proof of the one before it. An error of the digest is handed on.
pub open spec fn own_address(input: &TxInput, digests: &InputDigests) -> Result<
    Option<Seq<u8>>,
    ErrorCode,
> {
    match input.unlock_script {
        UnlockScript::P2PKH(_) => match digests.unlock {
            Ok(hash) => Ok(Some(address_text(0, hash@))),
            Err(e) => Err(e),
        },
        UnlockScript::P2SH => match digests.unlock {
            Ok(hash) => Ok(Some(address_text(2, hash@))),
            Err(e) => Err(e),
        },
        UnlockScript::P2MPKH => Ok(Some(multisig_placeholder())),
        UnlockScript::SameAsPrevious => Ok(None),
    }
}

/// What the engine makes of an input.
pub enum InputPlan {
    /// Deriving the input's address, or the device's, gave an error, or the
    /// heading of the run to be shown does not fit: the engine is reset.
    Fail(ErrorCode),
    /// The input goes on with the run under way and is not the last:
    /// nothing happens.
    Extend,
    /// The input is the last and goes on with a run that began with the first
    /// input and whose address is the device's own: nothing is shown, and the
    /// engine is reset.
    Elide,
    /// The input is the last and goes on with the run under way: the run is
    /// shown, and an approval resets the engine.
    Flush,
    /// The input has another address than the run under way: that run is
    /// shown, up to the input before this one, and an approval opens the
    /// run of this input.
    Close,
    /// The input has an address and no run is under way: the run of this
    /// input opens at once.
    Open,
}

/// The engine that reviews a transaction field by field. It owns the
/// staging buffer; while a run of inputs with one address is under way, that
/// address is kept in front of the cursor.
pub struct TxReviewer {
    buffer: StagingBuffer,
    previous_input: Option<InputInfo>,
    pending: Pending,
}

impl TxReviewer {
    /// What holds of every engine between two calls: the cursor lies within
    /// the buffer and behind the address of the run under way, which is
    /// ASCII text, and a run that waits to be opened can open.
    #[verifier::opaque]
    pub closed spec fn wf(&self) -> bool {
        &&& self.previous_input matches Some(p) ==> p.length <= self.buffer.cursor()
            && is_ascii_bytes(self.buffer.bytes().take(p.length as int))
        &&& self.buffer.cursor() <= self.buffer.capacity()
        &&& self.pending matches Pending::OpenRun(r) ==> r.valid()
    }

    /// The whole staging buffer.
    pub closed spec fn bytes(&self) -> Seq<u8> {
        self.buffer.bytes()
    }

    /// The write cursor of the staging buffer.
    pub closed spec fn cursor(&self) -> nat {
        self.buffer.cursor()
    }

    /// Number of bytes that the staging buffer holds.
    pub open spec fn capacity(&self) -> nat {
        self.bytes().len()
    }

    /// The record of the run of inputs under way, if there is one.
    pub closed spec fn previous_input(&self) -> Option<InputInfo> {
        self.previous_input
    }

    /// What an approval of the screen that was asked for last sets off.
    pub closed spec fn pending(&self) -> Pending {
        self.pending
    }

    /// The address of the run of inputs under way; empty if there is none.
    pub open spec fn run_address(&self) -> Seq<u8> {
        match self.previous_input() {
            Some(p) => self.bytes().take(p.length as int),
            None => Seq::empty(),
        }
    }

    /// Whether nothing is staged, no run is under way and no answer is
    /// waited for: the state in which a signing request starts.
    pub open spec fn is_reset(&self) -> bool {
        &&& self.cursor() == 0
        &&& self.previous_input() is None
        &&& self.pending() is Nothing
    }

    /// Whether the cursor stands where it stands between two fields: right
    /// behind the address of the run under way, or at the start.
    pub open spec fn settled(&self) -> bool {
        self.cursor() == self.run_address().len()
    }

    /// Whether this state comes from `before` by writing `text` at the cursor.
    pub open spec fn appended(&self, before: TxReviewer, text: Seq<u8>) -> bool {
        &&& before.cursor() + text.len() <= before.capacity()
        &&& self.cursor() == before.cursor() + text.len()
        &&& self.bytes() == before.bytes().take(before.cursor() as int) + text
            + before.bytes().skip(self.cursor() as int)
        &&& self.previous_input() == before.previous_input()
    }

    /// Whether this state is `before` in all that a contract can tell.
    pub open spec fn same_as(&self, before: TxReviewer) -> bool {
        &&& self.cursor() == before.cursor()
        &&& self.bytes() == before.bytes()
        &&& self.previous_input() == before.previous_input()
        &&& self.pending() == before.pending()
    }

    /// Writing behind the address of the run under way keeps the engine well formed.
    proof fn lemma_wf_kept(&self, before: TxReviewer, from: int)
        requires
            before.wf(),
            self.previous_input() == before.previous_input(),
            self.pending() == before.pending(),
            self.capacity() == before.capacity(),
            self.cursor() <= self.capacity(),
            before.previous_input() matches Some(p) ==> p.length <= from && p.length
                <= self.cursor(),
            forall|k: int| 0 <= k < from ==> self.bytes()[k] == before.bytes()[k],
        ensures
            self.wf(),
    {
        reveal(TxReviewer::wf);
        if let Some(p) = self.previous_input() {
            assert(self.bytes().take(p.length as int) =~= before.bytes().take(p.length as int));
        }
    }

    /// Two writes one after the other are one write of the two texts.
    proof fn lemma_appended_twice(
        &self,
        before: TxReviewer,
        between: TxReviewer,
        first: Seq<u8>,
        second: Seq<u8>,
    )
        requires
            between.appended(before, first),
            self.appended(between, second),
        ensures
            self.appended(before, first + second),
    {
        assert(self.bytes() =~= before.bytes().take(before.cursor() as int) + (first + second)
            + before.bytes().skip(self.cursor() as int));
    }

    /// What a well-formed engine can be relied on for: the cursor lies within
    /// the buffer and behind the address of the run under way, which is
    /// ASCII text, and a run that waits to be opened can open.
    pub proof fn lemma_wf_cursor(&self)
        requires
            self.wf(),
        ensures
            self.cursor() <= self.capacity(),
            self.previous_input() matches Some(p) ==> p.length <= self.cursor() && is_ascii_bytes(
                self.run_address(),
            ),
            self.pending() matches Pending::OpenRun(r) ==> r.valid(),
    {
        reveal(TxReviewer::wf);
    }

    /// Where a part of a text that was written lies in the buffer.
    proof fn lemma_appended_part(&self, before: TxReviewer, text: Seq<u8>, from: int, to: int)
        requires
            self.appended(before, text),
            0 <= from <= to <= text.len(),
        ensures
            self.bytes().subrange(before.cursor() + from, before.cursor() + to) == text.subrange(
                from,
                to,
            ),
    {
        assert(self.bytes().subrange(before.cursor() + from, before.cursor() + to)
            =~= text.subrange(from, to));
    }

    /// An engine on `buffer`, which is reset.
    pub fn new(buffer: StagingBuffer) -> (reviewer: Self)
        ensures
            reviewer.wf(),
            reviewer.is_reset(),
            reviewer.bytes() == buffer.bytes(),
    {
        let mut buffer = buffer;
        buffer.reset();
        proof {
            reveal(TxReviewer::wf);
        }
        TxReviewer { buffer, previous_input: None, pending: Pending::Nothing }
    }

    /// The write cursor of the staging buffer.
    pub fn get_index(&self) -> (index: usize)
        ensures
            index == self.cursor(),
            index <= self.capacity(),
    {
        self.buffer.get_index()
    }

    /// The bytes that are staged in front of the cursor.
    pub fn read_all(&self) -> (bytes: &[u8])
        ensures
            bytes@ == self.bytes().take(self.cursor() as int),
    {
        self.buffer.read_all()
    }

    /// The record of the run of inputs under way, if there is one.
    pub fn get_previous_input(&self) -> (info: Option<InputInfo>)
        ensures
            info == self.previous_input(),
            self.wf() ==> (info matches Some(p) ==> p.length <= self.cursor()),
    {
        proof {
            reveal(TxReviewer::wf);
        }
        self.previous_input
    }

    /// Whether the engine waits for the answer to a screen that, once
    /// approved, makes it go on.
    pub fn is_pending(&self) -> (waiting: bool)
        ensures
            waiting <==> !(self.pending() is Nothing),
    {
        match self.pending {
            Pending::Nothing => false,
            _ => true,
        }
    }

    /// Forgets everything that is staged, the run under way, and the answer
    /// that is waited for.
    pub fn reset(&mut self)
        ensures
            final(self).wf(),
            final(self).is_reset(),
            final(self).bytes() == old(self).bytes(),
    {
        self.previous_input = None;
        self.pending = Pending::Nothing;
        self.buffer.reset();
        proof {
            reveal(TxReviewer::wf);
        }
    }

    /// Notes what an approval of the screen asked for sets off.
    fn set_pending(&mut self, pending: Pending)
        requires
            old(self).wf(),
            pending matches Pending::OpenRun(r) ==> r.valid(),
        ensures
            final(self).wf(),
            final(self).pending() == pending,
            final(self).cursor() == old(self).cursor(),
            final(self).bytes() == old(self).bytes(),
            final(self).previous_input() == old(self).previous_input(),
    {
        proof {
            reveal(TxReviewer::wf);
        }
        self.pending = pending;
    }

    /// Gives up with `error`: the engine is reset.
    fn fail<T>(&mut self, error: ErrorCode) -> (r: Result<T, ErrorCode>)
        ensures
            r == Err::<T, ErrorCode>(error),
            final(self).wf(),
            final(self).is_reset(),
            final(self).capacity() == old(self).capacity(),
    {
        self.reset();
        Err(error)
    }

    /// Writes `text` at the cursor.
    fn stage(&mut self, text: &[u8]) -> (end: Result<usize, ErrorCode>)
        requires
            old(self).wf(),
        ensures
            final(self).wf(),
            end is Ok <==> old(self).cursor() + text@.len() <= old(self).capacity(),
            end matches Ok(e) ==> e == final(self).cursor() && final(self).appended(
                *old(self),
                text@,
            ),
            end matches Err(e) ==> e == ErrorCode::Overflow && final(self).same_as(*old(self)),
            final(self).pending() == old(self).pending(),
    {
        let ghost before = *self;
        let from: usize = self.buffer.get_index();
        proof {
            reveal(TxReviewer::wf);
        }
        let end = self.buffer.write(text);
        proof {
            self.lemma_wf_kept(before, from as int);
        }
        end
    }

    /// Stages `u256` as an amount in the native unit.
    fn write_alph_amount(&mut self, u256: &U256) -> (end: Result<usize, ErrorCode>)
        requires
            old(self).wf(),
            u256.valid(),
        ensures
            final(self).wf(),
            end is Ok <==> alph_fits(u256.value(), 33) && old(self).cursor() + alph_text(
                u256.value(),
            ).len() <= old(self).capacity(),
            end matches Ok(e) ==> e == final(self).cursor() && final(self).appended(
                *old(self),
                alph_text(u256.value()),
            ),
            end matches Err(e) ==> e == ErrorCode::Overflow && final(self).same_as(*old(self)),
            final(self).pending() == old(self).pending(),
    {
        let mut amount_output = [0u8; 33];
        match u256.to_alph(&mut amount_output) {
            Some(amount_str) => self.stage(amount_str),
            None => Err(ErrorCode::Overflow),
        }
    }

    /// Stages `u256` as a plain decimal number.
    fn write_token_amount(&mut self, u256: &U256) -> (end: Result<usize, ErrorCode>)
        requires
            old(self).wf(),
            u256.valid(),
        ensures
            final(self).wf(),
            end is Ok <==> old(self).cursor() + decimal_text(u256.value()).len() <= old(
                self,
            ).capacity(),
            end matches Ok(e) ==> e == final(self).cursor() && final(self).appended(
                *old(self),
                decimal_text(u256.value()),
            ),
            end matches Err(e) ==> e == ErrorCode::Overflow && final(self).same_as(*old(self)),
            final(self).pending() == old(self).pending(),
    {
        let mut amount_output = [0u8; 78];
        proof {
            lemma_decimal_fits(u256.bytes@);
        }
        match u256.to_str(&mut amount_output) {
            Some(amount_str) => self.stage(amount_str),
            None => unreached(),
        }
    }

    /// Stages the identifier of a token in hexadecimal.
    fn write_token_id(&mut self, token_id: &Byte32) -> (end: Result<usize, ErrorCode>)
        requires
            old(self).wf(),
        ensures
            final(self).wf(),
            end is Ok <==> old(self).cursor() + 64 <= old(self).capacity(),
            end matches Ok(e) ==> e == final(self).cursor() && final(self).appended(
                *old(self),
                hex_text(token_id.0@),
            ),
            end matches Err(e) ==> e == ErrorCode::Overflow && final(self).same_as(*old(self)),
            final(self).pending() == old(self).pending(),
    {
        let hex_str: [u8; 64] = to_hex(&token_id.0);
        self.stage(hex_str.as_slice())
    }

    /// Stages `prefix` followed by `index` in decimal. The two together may
    /// take 13 bytes.
    fn write_index_with_prefix(&mut self, index: usize, prefix: &[u8]) -> (end: Result<
        usize,
        ErrorCode,
    >)
        requires
            old(self).wf(),
            prefix@.len() + 3 <= 13,
        ensures
            final(self).wf(),
            end is Ok <==> (prefix@ + decimal_text(index as nat)).len() <= 13 && old(self).cursor()
                + (prefix@ + decimal_text(index as nat)).len() <= old(self).capacity(),
            end matches Ok(e) ==> e == final(self).cursor() && final(self).appended(
                *old(self),
                prefix@ + decimal_text(index as nat),
            ),
            end matches Err(e) ==> e == ErrorCode::Overflow && final(self).same_as(*old(self)),
            final(self).pending() == old(self).pending(),
    {
        let mut output = [0u8; 13];
        let mut number = [0u8; 13];
        let count: usize = match index_to_str(index, &mut number) {
            Some(digits) => digits.len(),
            None => {
                return Err(ErrorCode::Overflow);
            },
        };
        if count > 13 - prefix.len() {
            return Err(ErrorCode::Overflow);
        }
        copy_into(&mut output, 0, prefix);
        copy_into(&mut output, prefix.len(), vstd::slice::slice_subrange(&number, 0, count));
        let total_size: usize = prefix.len() + count;
        assert(output@.subrange(0, total_size as int) =~= prefix@ + decimal_text(index as nat));
        self.stage(vstd::slice::slice_subrange(&output, 0, total_size))
    }

    /// Stages the address of `hash` under the script kind `prefix`.
    pub fn write_address(&mut self, prefix: u8, hash: &[u8; 32]) -> (end: Result<
        usize,
        ErrorCode,
    >)
        requires
            old(self).wf(),
        ensures
            final(self).wf(),
            end is Ok <==> old(self).cursor() + address_text(prefix, hash@).len() <= old(
                self,
            ).capacity(),
            end matches Ok(e) ==> e == final(self).cursor() && final(self).appended(
                *old(self),
                address_text(prefix, hash@),
            ),
            end matches Err(e) ==> e == ErrorCode::Overflow && final(self).same_as(*old(self)),
            final(self).pending() == old(self).pending(),
    {
        let mut output = [0u8; 46];
        match to_base58_address(prefix, hash, &mut output) {
            Ok(str_bytes) => self.stage(str_bytes),
            Err(_) => unreached(),
        }
    }

    /// Multiplies the base-58 number whose digits are staged, least
    /// significant first, from `from` up to `to` by 256 and adds `carry`,
    /// 64 digits at a time. Returns the carry that is left over behind the
    /// last digit.
    fn update_with_carry(&mut self, from: usize, to: usize, carry: usize) -> (left: Result<
        usize,
        ErrorCode,
    >)
        requires
            old(self).wf(),
            from <= to <= old(self).capacity(),
            (to - from) % 64 == 0,
            carry < 256,
            all_digits58(old(self).bytes().subrange(from as int, to as int)),
            old(self).previous_input() matches Some(p) ==> p.length <= from,
        ensures
            final(self).wf(),
            left matches Ok(c) && c < 256 && (
                final(self).bytes().subrange(from as int, to as int),
                c as nat,
            ) == carry_pass(old(self).bytes().subrange(from as int, to as int), carry as nat),
            final(self).capacity() == old(self).capacity(),
            forall|k: int|
                0 <= k < from || to <= k < old(self).capacity() ==> final(self).bytes()[k] == old(
                    self,
                ).bytes()[k],
            final(self).cursor() == (if from < to {
                to as nat
            } else {
                old(self).cursor()
            }),
            final(self).previous_input() == old(self).previous_input(),
            final(self).pending() == old(self).pending(),
    {
        let mut bytes = [0u8; 64];
        let mut from_index: usize = from;
        let mut new_carry: usize = carry;
        let ghost digits = self.bytes().subrange(from as int, to as int);
        proof {
            assert(self.bytes().subrange(from as int, from as int) =~= Seq::<u8>::empty());
            assert(digits.take(0) =~= Seq::<u8>::empty());
        }
        while from_index < to
            invariant
                self.wf(),
                from <= from_index <= to <= self.capacity(),
                (to - from_index) % 64 == 0,
                new_carry < 256,
                self.capacity() == old(self).capacity(),
                digits == old(self).bytes().subrange(from as int, to as int),
                all_digits58(digits),
                (self.bytes().subrange(from as int, from_index as int), new_carry as nat)
                    == carry_pass(digits.take(from_index - from), carry as nat),
                forall|k: int|
                    0 <= k < from || from_index <= k < self.capacity() ==> self.bytes()[k] == old(
                        self,
                    ).bytes()[k],
                self.cursor() == (if from < from_index {
                    from_index as nat
                } else {
                    old(self).cursor()
                }),
                self.previous_input() == old(self).previous_input(),
                self.pending() == old(self).pending(),
                old(self).previous_input() matches Some(p) ==> p.length <= from,
            decreases to - from_index,
        {
            let ghost before = self.bytes();
            let ghost entry = *self;
            let ghost done = before.subrange(from as int, from_index as int);
            let ghost chunk = digits.subrange(from_index - from, from_index - from + 64);
            let stored = self.buffer.read(from_index, from_index + 64);
            copy_into(&mut bytes, 0, stored);
            proof {
                assert(bytes@ =~= chunk);
                assert(bytes@.take(64) =~= bytes@);
                assert(all_digits58(chunk));
            }
            let previous_carry: usize = new_carry;
            new_carry = carry_pass_in_place(&mut bytes, 64, new_carry);
            match self.buffer.write_from(from_index, &bytes) {
                Ok(_) => {},
                Err(_) => unreached(),
            }
            proof {
                assert(bytes@.take(64) =~= bytes@);
                lemma_carry_pass_concat(digits.take(from_index - from), chunk, carry as nat);
                assert(digits.take(from_index - from) + chunk =~= digits.take(
                    from_index - from + 64,
                ));
                assert(self.bytes().subrange(from as int, from_index + 64) =~= done + bytes@);
                self.lemma_wf_kept(entry, from as int);
            }
            from_index += 64;
        }
        assert(digits.take(to - from) =~= digits);
        Ok(new_carry)
    }

    /// Turns the at most 64 digits that are staged from `begin` up to `end`
    /// into text: the order is reversed and each digit becomes its character.
    fn turn_chunk(&mut self, begin: usize, end: usize)
        requires
            old(self).wf(),
            begin <= end <= old(self).capacity(),
            end - begin <= 64,
            all_digits58(old(self).bytes().subrange(begin as int, end as int)),
            old(self).previous_input() matches Some(p) ==> p.length <= begin,
        ensures
            final(self).wf(),
            final(self).capacity() == old(self).capacity(),
            forall|k: int|
                begin <= k < end ==> final(self).bytes()[k] == base58_char(
                    old(self).bytes()[begin + end - 1 - k],
                ),
            forall|k: int|
                0 <= k < begin || end <= k < old(self).capacity() ==> final(self).bytes()[k]
                    == old(self).bytes()[k],
            final(self).cursor() == old(self).cursor(),
            final(self).previous_input() == old(self).previous_input(),
            final(self).pending() == old(self).pending(),
    {
        proof {
            self.lemma_wf_cursor();
        }
        let mut temp0 = [0u8; 64];
        let length: usize = end - begin;
        let stored = self.buffer.read(begin, end);
        let mut i: usize = 0;
        while i < length
            invariant
                i <= length <= 64,
                stored@.len() == length,
                all_digits58(stored@),
                forall|k: int| 0 <= k < i ==> temp0@[length - k - 1] == base58_char(stored@[k]),
            decreases length - i,
        {
            temp0[length - i - 1] = alphabet_char(stored[i]);
            i += 1;
        }
        let ghost turned = temp0@.subrange(0, length as int);
        self.buffer.update(begin, vstd::slice::slice_subrange(&temp0, 0, length));
        proof {
            assert forall|k: int| begin <= k < end implies (#[trigger] self.bytes()[k])
                == base58_char(old(self).bytes()[begin + end - 1 - k]) by {
                assert(self.bytes()[k] == turned[k - begin]);
                assert(temp0@[length - (end - 1 - k) - 1] == base58_char(stored@[end - 1 - k]));
            }
            self.lemma_wf_kept(*old(self), begin as int);
        }
    }

    /// Turns the 64 digits that are staged from `begin` on and the 64 digits
    /// that are staged up to `end` into text, each lot in the place of the
    /// other: the order is reversed and each digit becomes its character.
    /// The two lots may overlap.
    fn swap_chunks(&mut self, begin: usize, end: usize)
        requires
            old(self).wf(),
            begin <= end <= old(self).capacity(),
            end - begin > 64,
            all_digits58(old(self).bytes().subrange(begin as int, end as int)),
            old(self).previous_input() matches Some(p) ==> p.length <= begin,
        ensures
            final(self).wf(),
            final(self).capacity() == old(self).capacity(),
            forall|k: int|
                begin <= k < begin + 64 || end - 64 <= k < end ==> final(self).bytes()[k]
                    == base58_char(old(self).bytes()[begin + end - 1 - k]),
            forall|k: int|
                0 <= k < begin || begin + 64 <= k < end - 64 || end <= k < old(self).capacity()
                    ==> final(self).bytes()[k] == old(self).bytes()[k],
            final(self).cursor() == old(self).cursor(),
            final(self).previous_input() == old(self).previous_input(),
            final(self).pending() == old(self).pending(),
    {
        proof {
            self.lemma_wf_cursor();
        }
        let mut temp0 = [0u8; 64];
        let mut temp1 = [0u8; 64];
        let ghost origin = self.bytes();
        let left = self.buffer.read(begin, begin + 64);
        let right = self.buffer.read(end - 64, end);
        proof {
            let digits = origin.subrange(begin as int, end as int);
            assert(forall|k: int| 0 <= k < 64 ==> left@[k] == digits[k]);
            assert(forall|k: int| 0 <= k < 64 ==> right@[k] == digits[end - begin - 64 + k]);
        }
        let mut i: usize = 0;
        while i < 64
            invariant
                i <= 64,
                left@.len() == 64,
                right@.len() == 64,
                forall|k: int| 0 <= k < 64 ==> left@[k] < 58 && right@[k] < 58,
                forall|k: int| 0 <= k < i ==> temp0@[63 - k] == base58_char(left@[k]),
                forall|k: int| 0 <= k < i ==> temp1@[63 - k] == base58_char(right@[k]),
            decreases 64 - i,
        {
            let index: usize = 64 - i - 1;
            temp0[index] = alphabet_char(left[i]);
            temp1[index] = alphabet_char(right[i]);
            i += 1;
        }
        self.buffer.update(begin, &temp1);
        let ghost between = self.bytes();
        self.buffer.update(end - 64, &temp0);
        proof {
            assert forall|k: int| begin <= k < begin + 64 || end - 64 <= k < end implies (
            #[trigger] self.bytes()[k]) == base58_char(origin[begin + end - 1 - k]) by {
                if end - 64 <= k {
                    assert(self.bytes()[k] == temp0@[k - (end - 64)]);
                    assert(temp0@[63 - (63 - (k - (end - 64)))] == base58_char(
                        left@[63 - (k - (end - 64))],
                    ));
                } else {
                    assert(self.bytes()[k] == between[k]);
                    assert(between[k] == temp1@[k - begin]);
                    assert(temp1@[63 - (63 - (k - begin))] == base58_char(
                        right@[63 - (k - begin)],
                    ));
                }
            }
            self.lemma_wf_kept(*old(self), begin as int);
        }
    }

    /// Turns the base-58 digits that are staged, least significant first,
    /// from `from` up to `to` into text: the order is reversed and each digit
    /// becomes its character. Works from both ends inward, 64 bytes at a time.
    fn finalize_multi_sig(&mut self, from: usize, to: usize) -> (done: Result<(), ErrorCode>)
        requires
            old(self).wf(),
            from <= to <= old(self).capacity(),
            all_digits58(old(self).bytes().subrange(from as int, to as int)),
            old(self).previous_input() matches Some(p) ==> p.length <= from,
        ensures
            final(self).wf(),
            done is Ok,
            final(self).capacity() == old(self).capacity(),
            forall|k: int|
                from <= k < to ==> final(self).bytes()[k] == base58_char(
                    old(self).bytes()[from + to - 1 - k],
                ),
            forall|k: int|
                0 <= k < from || to <= k < old(self).capacity() ==> final(self).bytes()[k] == old(
                    self,
                ).bytes()[k],
            final(self).cursor() == old(self).cursor(),
            final(self).previous_input() == old(self).previous_input(),
            final(self).pending() == old(self).pending(),
    {
        let mut begin: usize = from;
        let mut end: usize = to;
        let ghost origin = self.bytes();
        assert(forall|k: int| from <= k < to ==> origin[k] == origin.subrange(
            from as int,
            to as int,
        )[k - from]);
        while begin < end
            invariant
                self.wf(),
                from <= begin <= to,
                from <= end <= to <= self.capacity(),
                begin + end == from + to,
                origin == old(self).bytes(),
                self.capacity() == old(self).capacity(),
                forall|k: int| from <= k < to ==> origin[k] < 58,
                forall|k: int|
                    from <= k < to && (k < begin || end <= k) ==> self.bytes()[k] == base58_char(
                        origin[from + to - 1 - k],
                    ),
                forall|k: int| begin <= k < end ==> self.bytes()[k] == origin[k],
                forall|k: int|
                    0 <= k < from || to <= k < self.capacity() ==> self.bytes()[k] == origin[k],
                self.cursor() == old(self).cursor(),
                self.previous_input() == old(self).previous_input(),
                self.pending() == old(self).pending(),
                old(self).previous_input() matches Some(p) ==> p.length <= from,
            decreases to - begin,
        {
            proof {
                let middle = self.bytes().subrange(begin as int, end as int);
                assert(forall|k: int|
                    0 <= k < middle.len() ==> middle[k] == origin[begin + k]);
            }
            if end - begin <= 64 {
                self.turn_chunk(begin, end);
                return Ok(());
            }
            self.swap_chunks(begin, end);
            end -= 64;
            begin += 64;
        }
        Ok(())
    }

    /// Moves the cursor back to `from` after a write did not fit, and
    /// reports the overflow.
    fn give_up_write(&mut self, from: usize) -> (end: Result<usize, ErrorCode>)
        requires
            old(self).wf(),
            from <= old(self).capacity(),
            old(self).previous_input() matches Some(p) ==> p.length <= from,
        ensures
            final(self).wf(),
            end == Err::<usize, ErrorCode>(ErrorCode::Overflow),
            final(self).cursor() == from,
            final(self).bytes() == old(self).bytes(),
            final(self).previous_input() == old(self).previous_input(),
            final(self).pending() == old(self).pending(),
    {
        let nothing = [0u8; 1];
        let ghost before = self.bytes();
        let ghost entry = *self;
        match self.buffer.write_from(from, vstd::slice::slice_subrange(&nothing, 0, 0)) {
            Ok(_) => {},
            Err(_) => unreached(),
        }
        proof {
            assert(self.bytes() =~= before);
            self.lemma_wf_kept(entry, from as int);
        }
        Err(ErrorCode::Overflow)
    }

    /// Stages the value of the big-endian `input` in base-58 text, without a
    /// character for leading zero bytes. The conversion runs inside the
    /// staging buffer, so that the text may be longer than any local buffer:
    /// for each byte of `input` the digits staged so far, least significant
    /// first, are multiplied by 256 and the byte is added; new digits gather
    /// in a window of 64 bytes that is written out whenever it is full. At
    /// the end the digits are put in reading order and turned into characters.
    /// Fails with `Overflow`, with the cursor where it was, when the text does
    /// not fit the buffer.
    pub fn write_multi_sig(&mut self, input: &[u8]) -> (end: Result<usize, ErrorCode>)
        requires
            old(self).wf(),
        ensures
            final(self).wf(),
            end is Ok <==> old(self).cursor() + base58_text(be_value(input@)).len() <= old(
                self,
            ).capacity(),
            end matches Ok(e) ==> e == final(self).cursor() && final(self).appended(
                *old(self),
                base58_text(be_value(input@)),
            ) && final(self).pending() == old(self).pending(),
            end matches Err(e) ==> {
                &&& e == ErrorCode::Overflow
                &&& final(self).cursor() == old(self).cursor()
                &&& final(self).capacity() == old(self).capacity()
                &&& final(self).bytes().take(old(self).cursor() as int) == old(self).bytes().take(
                    old(self).cursor() as int,
                )
                &&& final(self).previous_input() == old(self).previous_input()
                &&& final(self).pending() == old(self).pending()
            },
    {
        let from_index: usize = self.buffer.get_index();
        let capacity: usize = self.buffer.get_capacity();
        let mut output_length: usize = 0;
        let mut window: usize = 0;
        let mut output = [0u8; 64];
        let n: usize = input.len();
        let ghost value = be_value(input@);
        let ghost text = base58_text(value);
        let mut i: usize = 0;
        proof {
            self.lemma_wf_cursor();
            assert(input@.take(0) =~= Seq::<u8>::empty());
            assert(self.bytes().subrange(from_index as int, from_index as int) + output@.take(0)
                =~= digits58_le(0));
        }
        while i < n
            invariant
                self.wf(),
                n == input@.len(),
                i <= n,
                value == be_value(input@),
                text == base58_text(value),
                from_index == old(self).cursor(),
                from_index + output_length <= self.capacity(),
                output_length % 64 == 0,
                window <= 64,
                capacity == self.capacity(),
                self.capacity() == old(self).capacity(),
                self.bytes().subrange(from_index as int, from_index + output_length)
                    + output@.take(window as int) == digits58_le(be_value(input@.take(i as int))),
                forall|k: int|
                    0 <= k < from_index || from_index + output_length <= k < self.capacity()
                        ==> self.bytes()[k] == old(self).bytes()[k],
                self.cursor() == from_index + output_length,
                self.previous_input() == old(self).previous_input(),
                self.pending() == old(self).pending(),
                old(self).previous_input() matches Some(p) ==> p.length <= from_index,
            decreases n - i,
        {
            let val: u8 = input[i];
            let ghost stored = be_value(input@.take(i as int));
            let ghost next = be_value(input@.take(i + 1));
            let ghost flushed = self.bytes().subrange(
                from_index as int,
                from_index + output_length,
            );
            let ghost gathered = output@.take(window as int);
            proof {
                lemma_be_value_take(input@, i as int);
                lemma_digits58_bound(stored);
                assert(all_digits58(flushed)) by {
                    assert(forall|k: int|
                        0 <= k < flushed.len() ==> flushed[k] == (flushed + gathered)[k]);
                }
                assert(all_digits58(gathered)) by {
                    assert(forall|k: int|
                        0 <= k < gathered.len() ==> gathered[k] == (flushed + gathered)[
                            flushed.len() + k
                        ]);
                }
                lemma_carry_pass_concat(flushed, gathered, val as nat);
                lemma_carry_pass_digits(stored, val as nat);
                lemma_carry_pass_shape(flushed, val as nat);
                lemma_be_value_prefix_le(input@, i + 1);
                lemma_digits58_len_monotonic(next, value);
            }
            let mut carry: usize = match self.update_with_carry(
                from_index,
                from_index + output_length,
                val as usize,
            ) {
                Ok(c) => c,
                Err(_) => unreached(),
            };
            carry = carry_pass_in_place(&mut output, window, carry);
            while carry > 0
                invariant
                    self.wf(),
                    from_index == old(self).cursor(),
                    from_index + output_length <= self.capacity(),
                    output_length % 64 == 0,
                    window <= 64,
                    carry < 256,
                    capacity == self.capacity(),
                    self.capacity() == old(self).capacity(),
                    value == be_value(input@),
                    text == base58_text(value),
                    digits58_le(next).len() <= digits58_le(value).len(),
                    self.bytes().subrange(from_index as int, from_index + output_length)
                        + output@.take(window as int) + digits58_le(carry as nat) == digits58_le(
                        next,
                    ),
                    forall|k: int|
                        0 <= k < from_index || from_index + output_length <= k < self.capacity()
                            ==> self.bytes()[k] == old(self).bytes()[k],
                    self.cursor() == from_index + output_length,
                    self.previous_input() == old(self).previous_input(),
                    self.pending() == old(self).pending(),
                    old(self).previous_input() matches Some(p) ==> p.length <= from_index,
                decreases carry,
            {
                let ghost laid = self.bytes().subrange(
                    from_index as int,
                    from_index + output_length,
                );
                let ghost entry = *self;
                if window == 64 {
                    match self.buffer.write_from(from_index + output_length, &output) {
                        Ok(_) => {},
                        Err(_) => {
                            proof {
                                self.lemma_wf_kept(entry, from_index as int);
                                assert(digits58_le(carry as nat).len() >= 1);
                                assert((laid + output@.take(window as int) + digits58_le(
                                    carry as nat,
                                )).len() == output_length + 64 + digits58_le(carry as nat).len());
                            }
                            let end = self.give_up_write(from_index);
                            assert(self.bytes().take(from_index as int) =~= old(
                                self,
                            ).bytes().take(from_index as int));
                            return end;
                        },
                    }
                    proof {
                        assert(output@.take(64) =~= output@);
                        assert(self.bytes().subrange(
                            from_index as int,
                            from_index + output_length + 64,
                        ) =~= laid + output@);
                        self.lemma_wf_kept(entry, from_index as int);
                    }
                    output = [0u8; 64];
                    output_length += 64;
                    window = 0;
                    proof {
                        assert(self.bytes().subrange(
                            from_index as int,
                            from_index + output_length,
                        ) + output@.take(0) =~= self.bytes().subrange(
                            from_index as int,
                            from_index + output_length,
                        ));
                    }
                }
                let ghost staged = self.bytes().subrange(
                    from_index as int,
                    from_index + output_length,
                );
                let ghost before = output@.take(window as int);
                output[window] = (carry % 58) as u8;
                proof {
                    assert(output@.take(window + 1) =~= before.push((carry % 58) as u8));
                    assert(staged + before.push((carry % 58) as u8) + digits58_le(
                        (carry / 58) as nat,
                    ) =~= staged + before + digits58_le(carry as nat));
                }
                window += 1;
                carry /= 58;
            }
            proof {
                let staged = self.bytes().subrange(from_index as int, from_index + output_length);
                assert(staged + output@.take(window as int) + digits58_le(0) =~= staged
                    + output@.take(window as int));
            }
            i += 1;
        }
        let ghost staged = self.bytes().subrange(from_index as int, from_index + output_length);
        let ghost digits = digits58_le(value);
        let ghost entry = *self;
        proof {
            assert(input@.take(n as int) =~= input@);
            lemma_digits58_bound(value);
        }
        let to_index: usize = match self.buffer.write_from(
            from_index + output_length,
            vstd::slice::slice_subrange(&output, 0, window),
        ) {
            Ok(to) => to,
            Err(_) => {
                proof {
                    self.lemma_wf_kept(entry, from_index as int);
                }
                let end = self.give_up_write(from_index);
                assert(self.bytes().take(from_index as int) =~= old(self).bytes().take(
                    from_index as int,
                ));
                return end;
            },
        };
        let ghost middle = self.bytes();
        proof {
            self.lemma_wf_kept(entry, from_index as int);
            assert(output@.subrange(0, window as int) =~= output@.take(window as int));
            assert(middle.subrange(from_index as int, to_index as int) =~= digits);
            assert(forall|j: int| 0 <= j < digits.len() ==> middle[from_index + j] == digits[j]);
        }
        match self.finalize_multi_sig(from_index, to_index) {
            Ok(_) => {},
            Err(_) => unreached(),
        }
        proof {
            assert(self.bytes() =~= old(self).bytes().take(from_index as int) + text + old(
                self,
            ).bytes().skip(to_index as int)) by {
                assert forall|k: int| from_index <= k < to_index implies self.bytes()[k]
                    == text[k - from_index] by {
                    assert(middle[from_index + (digits.len() - 1 - (k - from_index))]
                        == digits[digits.len() - 1 - (k - from_index)]);
                }
            }
        }
        Ok(to_index)
    }

    /// The text that is staged in `range`.
    fn get_str_from_range(&self, range: (usize, usize)) -> (text: Result<&str, ErrorCode>)
        requires
            range.0 <= range.1 <= self.capacity(),
        ensures
            text is Ok <==> valid_utf8(self.bytes().subrange(range.0 as int, range.1 as int)),
            text matches Ok(s) ==> encode_utf8(s@) == self.bytes().subrange(
                range.0 as int,
                range.1 as int,
            ),
            text matches Err(e) ==> e == ErrorCode::InternalError,
            is_ascii_bytes(self.bytes().subrange(range.0 as int, range.1 as int)) ==> text is Ok,
    {
        let bytes = self.buffer.read(range.0, range.1);
        bytes_to_string(bytes)
    }

    /// The screen that names the network: `"mainnet"` for 0, `"testnet"` for
    /// 1 and `"devnet"` for any other identifier.
    pub fn review_network(id: u8) -> (screen: Screen)
        ensures
            screen.shows(network_message(), seq![("Network"@, network_name(id))]),
    {
        let heading: [u8; 8] = [
            'N' as u8, 'e' as u8, 't' as u8, 'w' as u8, 'o' as u8, 'r' as u8, 'k' as u8, ' ' as u8,
        ];
        let mainnet: [u8; 7] = [
            'm' as u8, 'a' as u8, 'i' as u8, 'n' as u8, 'n' as u8, 'e' as u8, 't' as u8,
        ];
        let testnet: [u8; 7] = [
            't' as u8, 'e' as u8, 's' as u8, 't' as u8, 'n' as u8, 'e' as u8, 't' as u8,
        ];
        let devnet: [u8; 6] = ['d' as u8, 'e' as u8, 'v' as u8, 'n' as u8, 'e' as u8, 't' as u8];
        assert(heading@ =~= network_message());
        let network_type: String = match id {
            0 => {
                assert(mainnet@ =~= network_name(id));
                ascii_string(mainnet.as_slice())
            },
            1 => {
                assert(testnet@ =~= network_name(id));
                ascii_string(testnet.as_slice())
            },
            _ => {
                assert(devnet@ =~= network_name(id));
                ascii_string(devnet.as_slice())
            },
        };
        let mut fields: Vec<Field> = Vec::new();
        fields.push(Field { name: "Network", value: network_type });
        Screen { message: ascii_string(heading.as_slice()), fields }
    }

    /// The screen that shows the identifier of the transaction in hexadecimal.
    pub fn review_tx_id(tx_id: &[u8; 32]) -> (screen: Result<Screen, ErrorCode>)
        ensures
            screen matches Ok(s) && s.shows(
                tx_id_message(),
                seq![("Transaction ID"@, hex_text(tx_id@))],
            ),
    {
        let heading: [u8; 14] = [
            'T' as u8, 'r' as u8, 'a' as u8, 'n' as u8, 's' as u8, 'a' as u8, 'c' as u8,
            't' as u8, 'i' as u8, 'o' as u8, 'n' as u8, ' ' as u8, 'I' as u8, 'D' as u8,
        ];
        assert(heading@ =~= tx_id_message());
        let hex: [u8; 64] = to_hex(tx_id);
        proof {
            lemma_hex_text_ascii(tx_id@);
        }
        let mut fields: Vec<Field> = Vec::new();
        fields.push(Field { name: "Transaction ID", value: ascii_string(hex.as_slice()) });
        Ok(Screen { message: ascii_string(heading.as_slice()), fields })
    }

    /// Whether this state and `step` are what the review of a fee leaves of
    /// `before`: a fee that is there and fits is staged as an amount in the
    /// native unit and shown under `"Fees"`, and an approval resets the
    /// engine; any other fee is an overflow, which resets the engine at once.
    pub open spec fn fee_reviewed(
        &self,
        before: TxReviewer,
        tx_fee: &TxFee,
        step: Result<Step, ErrorCode>,
    ) -> bool {
        match step {
            Ok(Step::Show(screen)) => {
                &&& tx_fee.0 matches Some(fee)
                &&& alph_fits(fee.value(), 33)
                &&& self.appended(before, alph_text(fee.value()))
                &&& self.pending() is Reset
                &&& screen.shows(fees_message(), seq![("Fees"@, alph_text(fee.value()))])
            },
            Ok(Step::Done) => false,
            Err(e) => {
                &&& e == ErrorCode::Overflow
                &&& self.is_reset()
                &&& self.capacity() == before.capacity()
                &&& !(tx_fee.0 matches Some(fee) && alph_fits(fee.value(), 33) && before.cursor()
                    + alph_text(fee.value()).len() <= before.capacity())
            },
        }
    }

    /// Stages the fee and asks for the screen that shows it.
    pub fn review_tx_fee(&mut self, tx_fee: &TxFee) -> (step: Result<Step, ErrorCode>)
        requires
            old(self).wf(),
            tx_fee.0 matches Some(fee) ==> fee.valid(),
        ensures
            final(self).wf(),
            final(self).fee_reviewed(*old(self), tx_fee, step),
    {
        let heading: [u8; 5] = ['F' as u8, 'e' as u8, 'e' as u8, 's' as u8, ' ' as u8];
        assert(heading@ =~= fees_message());
        let from_index: usize = self.buffer.get_index();
        let to_index: usize = match tx_fee.get() {
            Some(fee) => {
                proof {
                    lemma_alph_text_ascii(fee.value());
                }
                match self.write_alph_amount(fee) {
                    Ok(to) => to,
                    Err(e) => {
                        return self.fail(e);
                    },
                }
            },
            None => {
                return self.fail(ErrorCode::Overflow);
            },
        };
        assert(self.bytes().subrange(from_index as int, to_index as int) =~= alph_text(
            tx_fee.0->Some_0.value(),
        ));
        let value: String = match self.get_str_from_range((from_index, to_index)) {
            Ok(s) => s.to_owned(),
            Err(e) => {
                return self.fail(e);
            },
        };
        let mut fields: Vec<Field> = Vec::new();
        fields.push(Field { name: "Fees", value });
        self.set_pending(Pending::Reset);
        Ok(Step::Show(Screen { message: ascii_string(heading.as_slice()), fields }))
    }

    /// Stages the address that an output pays to.
    fn write_output_address(&mut self, output: &AssetOutput, temp_data: &[u8]) -> (end: Result<
        usize,
        ErrorCode,
    >)
        requires
            old(self).wf(),
        ensures
            final(self).wf(),
            final(self).capacity() == old(self).capacity(),
            end is Ok <==> old(self).cursor() + output_address(output, temp_data@).len() <= old(
                self,
            ).capacity(),
            end matches Ok(e) ==> e == final(self).cursor() && final(self).appended(
                *old(self),
                output_address(output, temp_data@),
            ),
            end matches Err(e) ==> e == ErrorCode::Overflow,
            final(self).pending() == old(self).pending(),
    {
        match &output.lockup_script {
            LockupScript::P2PKH(hash) => self.write_address(
                output.lockup_script.get_type(),
                &hash.0,
            ),
            LockupScript::P2SH(hash) => self.write_address(
                output.lockup_script.get_type(),
                &hash.0,
            ),
            LockupScript::P2MPKH => self.write_multi_sig(temp_data),
        }
    }

    /// Stages the identifier and the amount of an output's token, if it has one.
    fn write_token(&mut self, output: &AssetOutput) -> (ranges: Result<
        Option<TokenIndexes>,
        ErrorCode,
    >)
        requires
            old(self).wf(),
            output_is_valid(output),
        ensures
            final(self).wf(),
            final(self).capacity() == old(self).capacity(),
            ranges is Ok <==> old(self).cursor() + token_staging(output).len() <= old(
                self,
            ).capacity(),
            ranges matches Ok(r) ==> final(self).appended(*old(self), token_staging(output))
                && token_laid_out(r, old(self).cursor(), output),
            ranges matches Err(e) ==> e == ErrorCode::Overflow,
            final(self).pending() == old(self).pending(),
    {
        let ghost start = *self;
        let token = match &output.token {
            Some(token) => token,
            None => {
                proof {
                    self.lemma_wf_cursor();
                    assert(self.bytes() =~= self.bytes().take(self.cursor() as int) + Seq::<
                        u8,
                    >::empty() + self.bytes().skip(self.cursor() as int));
                }
                return Ok(None);
            },
        };
        let token_id_from_index: usize = self.buffer.get_index();
        let token_id_to_index: usize = match self.write_token_id(&token.id) {
            Ok(to) => to,
            Err(e) => {
                return Err(e);
            },
        };
        let ghost named = *self;
        let token_amount_to_index: usize = match self.write_token_amount(&token.amount) {
            Ok(to) => to,
            Err(e) => {
                return Err(e);
            },
        };
        proof {
            let counted = *self;
            counted.lemma_appended_twice(
                start,
                named,
                hex_text(token.id.0@),
                decimal_text(token.amount.value()),
            );
        }
        Ok(
            Some(
                TokenIndexes {
                    token_id: (token_id_from_index, token_id_to_index),
                    token_amount: (token_id_to_index, token_amount_to_index),
                },
            ),
        )
    }

    /// Stages the texts of an output one after another: heading, amount,
    /// address, and the identifier and the amount of its token, if it has
    /// one. Returns where each of them lies.
    fn prepare_output(&mut self, output: &AssetOutput, current_index: usize, temp_data: &[u8]) -> (ranges: Result<
        OutputIndexes,
        ErrorCode,
    >)
        requires
            old(self).wf(),
            output_is_valid(output),
        ensures
            final(self).wf(),
            final(self).capacity() == old(self).capacity(),
            ranges is Ok <==> output_fits(output, current_index as nat) && old(self).cursor()
                + output_staging(output, current_index as nat, temp_data@).len() <= old(
                self,
            ).capacity(),
            ranges matches Ok(r) ==> final(self).appended(
                *old(self),
                output_staging(output, current_index as nat, temp_data@),
            ) && laid_out(r, old(self).cursor(), output, current_index as nat, temp_data@)
                && final(self).pending() == old(self).pending(),
            ranges matches Err(e) ==> e == ErrorCode::Overflow,
    {
        let prefix: [u8; 8] = [
            'O' as u8, 'u' as u8, 't' as u8, 'p' as u8, 'u' as u8, 't' as u8, ' ' as u8, '#' as u8,
        ];
        assert(prefix@ =~= output_prefix());
        let ghost start = *self;
        let ghost label = output_label(current_index as nat);
        let ghost amount = alph_text(output.amount.value());
        let ghost address = output_address(output, temp_data@);
        let ghost extra = token_staging(output);
        let review_message_from_index: usize = self.buffer.get_index();
        let review_message_to_index: usize = match self.write_index_with_prefix(
            current_index,
            prefix.as_slice(),
        ) {
            Ok(to) => to,
            Err(e) => {
                return Err(e);
            },
        };
        let ghost labelled = *self;

        let alph_amount_to_index: usize = match self.write_alph_amount(&output.amount) {
            Ok(to) => to,
            Err(e) => {
                return Err(e);
            },
        };
        let ghost priced = *self;
        proof {
            priced.lemma_appended_twice(start, labelled, label, amount);
        }

        let address_to_index: usize = match self.write_output_address(output, temp_data) {
            Ok(to) => to,
            Err(e) => {
                return Err(e);
            },
        };
        let ghost addressed = *self;
        proof {
            addressed.lemma_appended_twice(start, priced, label + amount, address);
        }

        let token: Option<TokenIndexes> = match self.write_token(output) {
            Ok(token) => token,
            Err(e) => {
                return Err(e);
            },
        };
        proof {
            let counted = *self;
            counted.lemma_appended_twice(start, addressed, label + amount + address, extra);
        }
        Ok(
            OutputIndexes {
                review_message: (review_message_from_index, review_message_to_index),
                alph_amount: (review_message_to_index, alph_amount_to_index),
                address: (alph_amount_to_index, address_to_index),
                token,
            },
        )
    }

    /// The owned text that is staged in `range`, which holds ASCII.
    fn staged_text(&self, range: (usize, usize)) -> (text: String)
        requires
            range.0 <= range.1 <= self.capacity(),
            is_ascii_bytes(self.bytes().subrange(range.0 as int, range.1 as int)),
        ensures
            encode_utf8(text@) == self.bytes().subrange(range.0 as int, range.1 as int),
    {
        match self.get_str_from_range(range) {
            Ok(s) => s.to_owned(),
            Err(_) => unreached(),
        }
    }

    /// Whether this state and `step` are what the review of an output leaves
    /// of `before`: if the heading and the amount fit their buffers and all
    /// texts fit the staging buffer, they are staged and shown on one screen,
    /// and an approval resets the engine; if not, that is an overflow, which
    /// resets the engine at once.
    pub open spec fn output_reviewed(
        &self,
        before: TxReviewer,
        output: &AssetOutput,
        index: nat,
        temp_data: Seq<u8>,
        step: Result<Step, ErrorCode>,
    ) -> bool {
        let staging = output_staging(output, index, temp_data);
        let fits = output_fits(output, index) && before.cursor() + staging.len()
            <= before.capacity();
        match step {
            Ok(Step::Show(screen)) => {
                &&& fits
                &&& self.appended(before, staging)
                &&& self.pending() is Reset
                &&& screen.shows(output_label(index), output_fields(output, temp_data))
            },
            Ok(Step::Done) => false,
            Err(e) => {
                &&& e == ErrorCode::Overflow
                &&& !fits
                &&& self.is_reset()
                &&& self.capacity() == before.capacity()
            },
        }
    }

    /// Stages an output and asks for the screen that shows it: the address
    /// it pays to, its amount in the native unit, and the identifier and the
    /// amount of its token, if it has one.
    pub fn review_output(&mut self, output: &AssetOutput, current_index: usize, temp_data: &[
        u8
    ]) -> (step: Result<Step, ErrorCode>)
        requires
            old(self).wf(),
            output_is_valid(output),
        ensures
            final(self).wf(),
            final(self).output_reviewed(
                *old(self),
                output,
                current_index as nat,
                temp_data@,
                step,
            ),
    {
        let ghost label = output_label(current_index as nat);
        let ghost amount = alph_text(output.amount.value());
        let ghost address = output_address(output, temp_data@);
        let ghost extra = token_staging(output);
        let ghost staging = output_staging(output, current_index as nat, temp_data@);
        let ranges = match self.prepare_output(output, current_index, temp_data) {
            Ok(ranges) => ranges,
            Err(e) => {
                return self.fail(e);
            },
        };
        proof {
            let l0 = label.len() as int;
            let l1 = l0 + amount.len();
            let l2 = l1 + address.len();
            self.lemma_appended_part(*old(self), staging, 0, l0);
            self.lemma_appended_part(*old(self), staging, l0, l1);
            self.lemma_appended_part(*old(self), staging, l1, l2);
            assert(staging.subrange(0, l0) =~= label);
            assert(staging.subrange(l0, l1) =~= amount);
            assert(staging.subrange(l1, l2) =~= address);
            lemma_decimal_text_ascii(current_index as nat);
            lemma_alph_text_ascii(output.amount.value());
            match &output.lockup_script {
                LockupScript::P2PKH(hash) => lemma_base58_ascii(seq![0u8] + hash.0@),
                LockupScript::P2SH(hash) => lemma_base58_ascii(seq![2u8] + hash.0@),
                LockupScript::P2MPKH => lemma_base58_ascii(temp_data@),
            }
            if let Some(t) = &output.token {
                let l3 = l2 + 64;
                let l4 = l3 + decimal_text(t.amount.value()).len();
                self.lemma_appended_part(*old(self), staging, l2, l3);
                self.lemma_appended_part(*old(self), staging, l3, l4);
                assert(staging.subrange(l2, l3) =~= hex_text(t.id.0@));
                assert(staging.subrange(l3, l4) =~= decimal_text(t.amount.value()));
                lemma_hex_text_ascii(t.id.0@);
                lemma_decimal_text_ascii(t.amount.value());
            }
        }
        let review_message: String = self.staged_text(ranges.review_message);
        let mut fields: Vec<Field> = Vec::new();
        fields.push(Field { name: "Address", value: self.staged_text(ranges.address) });
        fields.push(Field { name: "ALPH", value: self.staged_text(ranges.alph_amount) });
        match ranges.token {
            Some(token) => {
                fields.push(Field { name: "Token ID", value: self.staged_text(token.token_id) });
                fields.push(
                    Field { name: "Token Amount", value: self.staged_text(token.token_amount) },
                );
            },
            None => {},
        }
        self.set_pending(Pending::Reset);
        Ok(Step::Show(Screen { message: review_message, fields }))
    }

    /// Whether an input goes on with the run under way: it repeats the proof
    /// of the input before it, or its own address, unless it stands for
    /// several keys, is the address of the run.
    pub open spec fn continues_run(&self, input: &TxInput, digests: &InputDigests) -> bool {
        match own_address(input, digests) {
            Ok(None) => true,
            Ok(Some(address)) => !(input.unlock_script is P2MPKH) && self.previous_input() is Some
                && self.run_address() == address,
            Err(_) => false,
        }
    }

    /// Whether the heading of the run under way, taken up to the input
    /// before `next`, fits its buffer and the staging buffer.
    pub open spec fn run_fits(&self, next: nat) -> bool {
        let first = self.previous_input()->Some_0.input_index as nat;
        run_label_fits(first, next) && self.cursor() + run_label(first, next).len()
            <= self.capacity()
    }

    /// What the engine makes of the input with index `current_index` among
    /// `input_size` inputs.
    pub open spec fn input_plan(
        &self,
        input: &TxInput,
        current_index: nat,
        input_size: nat,
        digests: &InputDigests,
    ) -> InputPlan {
        let last = current_index + 1 == input_size;
        match own_address(input, digests) {
            Err(e) => InputPlan::Fail(e),
            Ok(_) => {
                if self.continues_run(input, digests) {
                    if !last {
                        InputPlan::Extend
                    } else if self.previous_input()->Some_0.input_index == 0
                        && digests.device is None {
                        InputPlan::Fail(ErrorCode::DerivingPublicKeyFailed)
                    } else if self.previous_input()->Some_0.input_index == 0
                        && self.run_address() == address_text(0, digests.device->Some_0@) {
                        InputPlan::Elide
                    } else if self.run_fits(input_size) {
                        InputPlan::Flush
                    } else {
                        InputPlan::Fail(ErrorCode::Overflow)
                    }
                } else if current_index > u16::MAX {
                    InputPlan::Fail(ErrorCode::Overflow)
                } else if self.previous_input() is Some {
                    if self.run_fits(current_index) {
                        InputPlan::Close
                    } else {
                        InputPlan::Fail(ErrorCode::Overflow)
                    }
                } else {
                    InputPlan::Open
                }
            },
        }
    }

    /// Whether the engine keeps the record of the run that the input
    /// `input_index` opened, and has the run's address staged.
    pub open spec fn tracks(&self, address: Seq<u8>, input_index: nat) -> bool {
        &&& self.previous_input() == Some(
            InputInfo { length: address.len() as u16, input_index: input_index as u16 },
        )
        &&& self.run_address() == address
    }

    /// Whether this state and `step` are what opening the run of the input
    /// `input_index` among `input_size` inputs leaves of an engine with a
    /// staging buffer of `capacity` bytes. The address of the run is staged
    /// at the start of the buffer. If the input is the only one and its
    /// address is the device's own, nothing is shown and the engine is
    /// reset. If the input is the last, the run is shown as `"Input #k"`,
    /// and an approval resets the engine. Else the run stays open. An
    /// address or a heading that does not fit the buffer is an overflow, and
    /// a device key that is needed and missing is an error; both reset the
    /// engine.
    pub open spec fn run_opened(
        &self,
        capacity: nat,
        address: Seq<u8>,
        input_index: nat,
        input_size: nat,
        device: Option<[u8; 32]>,
        step: Result<Step, ErrorCode>,
    ) -> bool {
        let label = run_label(input_index, input_index + 1);
        &&& self.capacity() == capacity
        &&& if address.len() > capacity {
            step matches Err(e) && e == ErrorCode::Overflow && self.is_reset()
        } else if input_size == 1 && device is None {
            step matches Err(e) && e == ErrorCode::DerivingPublicKeyFailed && self.is_reset()
        } else if input_size == 1 && address == address_text(0, device->Some_0@) {
            step matches Ok(Step::Done) && self.is_reset()
        } else if input_index + 1 == input_size {
            if address.len() + label.len() > capacity {
                step matches Err(e) && e == ErrorCode::Overflow && self.is_reset()
            } else {
                &&& step matches Ok(Step::Show(screen)) && screen.shows(
                    label,
                    seq![("Address"@, address)],
                )
                &&& self.tracks(address, input_index)
                &&& self.cursor() == address.len() + label.len()
                &&& self.bytes().take(self.cursor() as int) == address + label
                &&& self.pending() is Reset
            }
        } else {
            &&& step matches Ok(Step::Done)
            &&& self.tracks(address, input_index)
            &&& self.cursor() == address.len()
            &&& self.pending() is Nothing
        }
    }

    /// Whether this state and `step` are what the review of an input leaves
    /// of `before`, according to what the engine makes of the input.
    pub open spec fn input_reviewed(
        &self,
        before: TxReviewer,
        input: &TxInput,
        current_index: nat,
        input_size: nat,
        digests: &InputDigests,
        step: Result<Step, ErrorCode>,
    ) -> bool {
        let first = before.previous_input()->Some_0.input_index as nat;
        match before.input_plan(input, current_index, input_size, digests) {
            InputPlan::Fail(error) => {
                &&& step matches Err(e) && e == error
                &&& self.is_reset()
                &&& self.capacity() == before.capacity()
            },
            InputPlan::Extend => step matches Ok(Step::Done) && self.same_as(before),
            InputPlan::Elide => {
                &&& step matches Ok(Step::Done)
                &&& self.is_reset()
                &&& self.capacity() == before.capacity()
            },
            InputPlan::Flush => {
                &&& step matches Ok(Step::Show(screen)) && screen.shows(
                    run_label(first, input_size),
                    seq![("Address"@, before.run_address())],
                )
                &&& self.appended(before, run_label(first, input_size))
                &&& self.pending() is Reset
            },
            InputPlan::Close => {
                &&& step matches Ok(Step::Show(screen)) && screen.shows(
                    run_label(first, current_index),
                    seq![("Address"@, before.run_address())],
                )
                &&& self.appended(before, run_label(first, current_index))
                &&& self.pending() matches Pending::OpenRun(run) && run.input_index
                    == current_index && run.input_size == input_size && run.device
                    == digests.device && own_address(input, digests) == Ok::<
                    Option<Seq<u8>>,
                    ErrorCode,
                >(Some(run.address_text()))
            },
            InputPlan::Open => self.run_opened(
                before.capacity(),
                own_address(input, digests)->Ok_0->Some_0,
                current_index,
                input_size,
                digests.device,
                step,
            ),
        }
    }

    /// Whether this state and `step` are what the user's answer to the screen
    /// asked for last leaves of `before`. A rejection cancels the review and
    /// resets the engine, whatever was waited for. An approval does what was
    /// waited for: nothing, a reset, or the opening of the next run of inputs.
    pub open spec fn confirmed(&self, before: TxReviewer, approved: bool, step: Result<
        Step,
        ErrorCode,
    >) -> bool {
        if !approved {
            &&& step matches Err(e) && e == ErrorCode::UserCancelled
            &&& self.is_reset()
            &&& self.capacity() == before.capacity()
        } else {
            match before.pending() {
                Pending::Nothing => step matches Ok(Step::Done) && self.same_as(before),
                Pending::Reset => {
                    &&& step matches Ok(Step::Done)
                    &&& self.is_reset()
                    &&& self.capacity() == before.capacity()
                },
                Pending::OpenRun(run) => self.run_opened(
                    before.capacity(),
                    run.address_text(),
                    run.input_index as nat,
                    run.input_size as nat,
                    run.device,
                    step,
                ),
            }
        }
    }

    /// Stages the heading of a run of several inputs, `"Inputs #a - #b"`,
    /// which may take 18 bytes.
    fn write_range_label(&mut self, first: usize, last: usize) -> (end: Result<usize, ErrorCode>)
        requires
            old(self).wf(),
        ensures
            final(self).wf(),
            end is Ok <==> (inputs_prefix() + decimal_text(first as nat) + range_separator()
                + decimal_text(last as nat)).len() <= 18 && old(self).cursor() + (inputs_prefix()
                + decimal_text(first as nat) + range_separator() + decimal_text(
                last as nat,
            )).len() <= old(self).capacity(),
            end matches Ok(e) ==> e == final(self).cursor() && final(self).appended(
                *old(self),
                inputs_prefix() + decimal_text(first as nat) + range_separator() + decimal_text(
                    last as nat,
                ),
            ),
            end matches Err(e) ==> e == ErrorCode::Overflow && final(self).same_as(*old(self)),
            final(self).pending() == old(self).pending(),
    {
        let prefix: [u8; 8] = [
            'I' as u8, 'n' as u8, 'p' as u8, 'u' as u8, 't' as u8, 's' as u8, ' ' as u8, '#' as u8,
        ];
        let separator: [u8; 4] = [' ' as u8, '-' as u8, ' ' as u8, '#' as u8];
        assert(prefix@ =~= inputs_prefix());
        assert(separator@ =~= range_separator());
        let mut bytes = [0u8; 18];
        let mut from_digits = [0u8; 18];
        let mut to_digits = [0u8; 18];
        let from_count: usize = match index_to_str(first, &mut from_digits) {
            Some(digits) => digits.len(),
            None => {
                return Err(ErrorCode::Overflow);
            },
        };
        let to_count: usize = match index_to_str(last, &mut to_digits) {
            Some(digits) => digits.len(),
            None => {
                return Err(ErrorCode::Overflow);
            },
        };
        if from_count + to_count > 6 {
            return Err(ErrorCode::Overflow);
        }
        copy_into(&mut bytes, 0, prefix.as_slice());
        let mut index: usize = 8;
        copy_into(&mut bytes, index, vstd::slice::slice_subrange(&from_digits, 0, from_count));
        index += from_count;
        copy_into(&mut bytes, index, separator.as_slice());
        index += 4;
        copy_into(&mut bytes, index, vstd::slice::slice_subrange(&to_digits, 0, to_count));
        index += to_count;
        assert(bytes@.subrange(0, index as int) =~= inputs_prefix() + decimal_text(first as nat)
            + range_separator() + decimal_text(last as nat));
        self.stage(vstd::slice::slice_subrange(&bytes, 0, index))
    }

    /// Stages the heading of the run under way, taken up to the input before
    /// `current_input_index`, and returns the screen that shows the run.
    /// Without a run under way there is nothing to show.
    fn review_inputs(&mut self, current_input_index: usize) -> (screen: Result<
        Option<Screen>,
        ErrorCode,
    >)
        requires
            old(self).wf(),
            old(self).previous_input() matches Some(p) ==> p.input_index < current_input_index,
        ensures
            final(self).wf(),
            final(self).pending() == old(self).pending(),
            final(self).capacity() == old(self).capacity(),
            old(self).previous_input() is None ==> (screen matches Ok(None)
                && final(self).same_as(*old(self))),
            old(self).previous_input() matches Some(p) ==> match screen {
                Ok(Some(s)) => {
                    &&& old(self).run_fits(current_input_index as nat)
                    &&& final(self).appended(
                        *old(self),
                        run_label(p.input_index as nat, current_input_index as nat),
                    )
                    &&& s.shows(
                        run_label(p.input_index as nat, current_input_index as nat),
                        seq![("Address"@, old(self).run_address())],
                    )
                },
                Ok(None) => false,
                Err(e) => e == ErrorCode::Overflow && !old(self).run_fits(
                    current_input_index as nat,
                ) && final(self).same_as(*old(self)),
            },
    {
        let previous_input: InputInfo = match self.previous_input {
            Some(previous_input) => previous_input,
            None => {
                return Ok(None);
            },
        };
        proof {
            self.lemma_wf_cursor();
        }
        let prefix: [u8; 7] = [
            'I' as u8, 'n' as u8, 'p' as u8, 'u' as u8, 't' as u8, ' ' as u8, '#' as u8,
        ];
        assert(prefix@ =~= input_prefix());
        let previous_input_index: usize = previous_input.input_index as usize;
        let previous_input_length: usize = previous_input.length as usize;
        let inputs_count: usize = current_input_index - previous_input_index;
        let ghost label = run_label(previous_input_index as nat, current_input_index as nat);
        let review_message_from_index: usize = self.buffer.get_index();
        let written = if inputs_count == 1 {
            self.write_index_with_prefix(previous_input_index, prefix.as_slice())
        } else {
            self.write_range_label(previous_input_index, current_input_index - 1)
        };
        let review_message_to_index: usize = match written {
            Ok(to) => to,
            Err(e) => {
                return Err(e);
            },
        };
        proof {
            self.lemma_appended_part(*old(self), label, 0, label.len() as int);
            assert(label.subrange(0, label.len() as int) =~= label);
            lemma_decimal_text_ascii(previous_input_index as nat);
            lemma_decimal_text_ascii((current_input_index - 1) as nat);
            assert(self.bytes().subrange(0, previous_input_length as int) =~= old(
                self,
            ).run_address());
        }
        let address: String = self.staged_text((0, previous_input_length));
        let review_message: String = self.staged_text(
            (review_message_from_index, review_message_to_index),
        );
        let mut fields: Vec<Field> = Vec::new();
        fields.push(Field { name: "Address", value: address });
        Ok(Some(Screen { message: review_message, fields }))
    }

    /// Whether `address` is the address of the run under way.
    fn is_input_address_same_as_previous(&self, address: &[u8]) -> (same: bool)
        requires
            self.wf(),
        ensures
            same <==> self.previous_input() is Some && self.run_address() == address@,
    {
        proof {
            self.lemma_wf_cursor();
        }
        match &self.previous_input {
            Some(previous_input) => {
                let previous = self.buffer.read(0, previous_input.length as usize);
                assert(previous@ =~= self.run_address());
                same_bytes(previous, address)
            },
            None => false,
        }
    }

    /// Whether the first `previous_address_length` bytes that are staged are
    /// the address of the device's own key, whose digest is `device`.
    fn is_same_as_device_address(&self, previous_address_length: usize, device: &Option<
        [u8; 32],
    >) -> (same: Result<bool, ErrorCode>)
        requires
            previous_address_length <= self.capacity(),
        ensures
            match *device {
                Some(hash) => same matches Ok(b) && (b <==> self.bytes().take(
                    previous_address_length as int,
                ) == address_text(0, hash@)),
                None => same matches Err(e) && e == ErrorCode::DerivingPublicKeyFailed,
            },
    {
        let public_key_hash: &[u8; 32] = match device {
            Some(hash) => hash,
            None => {
                return Err(ErrorCode::DerivingPublicKeyFailed);
            },
        };
        let mut address_bytes = [0u8; 46];
        let previous_address = self.buffer.read(0, previous_address_length);
        assert(previous_address@ =~= self.bytes().take(previous_address_length as int));
        match to_base58_address(0u8, public_key_hash, &mut address_bytes) {
            Ok(device_address) => Ok(same_bytes(previous_address, device_address)),
            Err(_) => unreached(),
        }
    }

    /// Stages `address` at the start of the buffer and keeps the record of
    /// the run that the input `input_index` opens.
    fn update_previous_input(&mut self, input_index: usize, address: &[u8]) -> (done: Result<
        (),
        ErrorCode,
    >)
        requires
            old(self).wf(),
            old(self).previous_input() is None,
            address@.len() <= 46,
            input_index <= u16::MAX,
            is_ascii_bytes(address@),
        ensures
            final(self).wf(),
            final(self).capacity() == old(self).capacity(),
            final(self).pending() == old(self).pending(),
            done is Ok <==> address@.len() <= old(self).capacity(),
            done is Ok ==> {
                &&& final(self).previous_input() == Some(
                    InputInfo { length: address@.len() as u16, input_index: input_index as u16 },
                )
                &&& final(self).run_address() == address@
                &&& final(self).cursor() == address@.len()
            },
            done matches Err(e) ==> e == ErrorCode::Overflow && final(self).same_as(*old(self)),
    {
        proof {
            reveal(TxReviewer::wf);
        }
        match self.buffer.write_from(0, address) {
            Ok(_) => {},
            Err(e) => {
                return Err(e);
            },
        }
        self.previous_input = Some(
            InputInfo { input_index: input_index as u16, length: address.len() as u16 },
        );
        proof {
            assert(self.bytes().take(address@.len() as int) =~= address@);
        }
        Ok(())
    }

    /// Opens the run of an input: see `run_opened`.
    fn open_run(&mut self, run: &RunStart) -> (step: Result<Step, ErrorCode>)
        requires
            old(self).wf(),
            old(self).previous_input() is None,
            run.valid(),
        ensures
            final(self).wf(),
            final(self).run_opened(
                old(self).capacity(),
                run.address_text(),
                run.input_index as nat,
                run.input_size as nat,
                run.device,
                step,
            ),
    {
        let address = vstd::slice::slice_subrange(run.address.as_slice(), 0, run.length);
        self.set_pending(Pending::Nothing);
        match self.update_previous_input(run.input_index, address) {
            Ok(_) => {},
            Err(e) => {
                return self.fail(e);
            },
        }
        proof {
            self.lemma_wf_cursor();
            assert(self.bytes().take(run.length as int) =~= self.run_address());
        }
        if run.input_size == 1 {
            match self.is_same_as_device_address(run.length, &run.device) {
                Ok(true) => {
                    self.reset();
                    return Ok(Step::Done);
                },
                Ok(false) => {},
                Err(e) => {
                    return self.fail(e);
                },
            }
        }
        if run.input_index == run.input_size - 1 {
            let ghost opened = *self;
            proof {
                lemma_pow10_values();
                lemma_digits10_len_bound(run.input_index as nat, 5);
            }
            match self.review_inputs(run.input_size) {
                Ok(Some(screen)) => {
                    proof {
                        let label = run_label(
                            run.input_index as nat,
                            (run.input_index + 1) as nat,
                        );
                        assert(self.bytes().take(self.cursor() as int) =~= run.address_text()
                            + label);
                        assert(self.bytes().take(run.length as int) =~= opened.bytes().take(
                            run.length as int,
                        ));
                    }
                    self.set_pending(Pending::Reset);
                    Ok(Step::Show(screen))
                },
                Ok(None) => unreached(),
                Err(e) => self.fail(e),
            }
        } else {
            Ok(Step::Done)
        }
    }

    /// Reviews the input with index `current_index` among `input_size`
    /// inputs. Inputs that follow one another with one address form a run,
    /// which is shown on one screen when it ends; `input_plan` says what
    /// becomes of this input, and `input_reviewed` what that leaves.
    pub fn review_input(
        &mut self,
        input: &TxInput,
        current_index: usize,
        input_size: usize,
        digests: &InputDigests,
    ) -> (step: Result<Step, ErrorCode>)
        requires
            old(self).wf(),
            current_index < input_size,
            old(self).previous_input() matches Some(p) ==> p.input_index < current_index,
            input.unlock_script is SameAsPrevious && current_index + 1 == input_size ==> old(
                self,
            ).previous_input() is Some,
        ensures
            final(self).wf(),
            final(self).input_reviewed(
                *old(self),
                input,
                current_index as nat,
                input_size as nat,
                digests,
                step,
            ),
    {
        let mut address_bytes = [0u8; 46];
        let mut address_length: usize = 0;
        let is_same_as_previous: bool = match &input.unlock_script {
            UnlockScript::P2PKH(_) => {
                let public_key_hash: &[u8; 32] = match &digests.unlock {
                    Ok(hash) => hash,
                    Err(e) => {
                        return self.fail(*e);
                    },
                };
                proof {
                    lemma_base58_ascii(seq![0u8] + public_key_hash@);
                }
                match to_base58_address(0u8, public_key_hash, &mut address_bytes) {
                    Ok(address) => {
                        address_length = address.len();
                        self.is_input_address_same_as_previous(address)
                    },
                    Err(_) => unreached(),
                }
            },
            UnlockScript::P2MPKH => {
                let multisig_address: [u8; 17] = [
                    'm' as u8, 'u' as u8, 'l' as u8, 't' as u8, 'i' as u8, '-' as u8, 's' as u8,
                    'i' as u8, 'g' as u8, '-' as u8, 'a' as u8, 'd' as u8, 'd' as u8, 'r' as u8,
                    'e' as u8, 's' as u8, 's' as u8,
                ];
                assert(multisig_address@ =~= multisig_placeholder());
                copy_into(&mut address_bytes, 0, multisig_address.as_slice());
                address_length = 17;
                assert(address_bytes@.take(17) =~= multisig_placeholder());
                false
            },
            UnlockScript::P2SH => {
                let script_hash: &[u8; 32] = match &digests.unlock {
                    Ok(hash) => hash,
                    Err(e) => {
                        return self.fail(*e);
                    },
                };
                proof {
                    lemma_base58_ascii(seq![2u8] + script_hash@);
                }
                match to_base58_address(2u8, script_hash, &mut address_bytes) {
                    Ok(address) => {
                        address_length = address.len();
                        self.is_input_address_same_as_previous(address)
                    },
                    Err(_) => unreached(),
                }
            },
            UnlockScript::SameAsPrevious => true,
        };
        proof {
            self.lemma_wf_cursor();
        }

        let is_current_input_the_last_one: bool = current_index == input_size - 1;
        if is_same_as_previous && !is_current_input_the_last_one {
            return Ok(Step::Done);
        }
        if is_same_as_previous && is_current_input_the_last_one {
            let previous_input: InputInfo = match self.previous_input {
                Some(previous_input) => previous_input,
                None => unreached(),
            };
            if previous_input.input_index == 0 {
                assert(self.bytes().take(previous_input.length as int) =~= self.run_address());
                match self.is_same_as_device_address(
                    previous_input.length as usize,
                    &digests.device,
                ) {
                    Ok(true) => {
                        // No need to display inputs if all inputs come from the device address
                        self.reset();
                        return Ok(Step::Done);
                    },
                    Ok(false) => {},
                    Err(e) => {
                        return self.fail(e);
                    },
                }
            }
            return match self.review_inputs(input_size) {
                Ok(Some(screen)) => {
                    self.set_pending(Pending::Reset);
                    Ok(Step::Show(screen))
                },
                Ok(None) => unreached(),
                Err(e) => self.fail(e),
            };
        }
        if current_index > u16::MAX as usize {
            return self.fail(ErrorCode::Overflow);
        }
        let run = RunStart {
            input_index: current_index,
            input_size,
            address: address_bytes,
            length: address_length,
            device: digests.device,
        };
        match self.review_inputs(current_index) {
            Ok(Some(screen)) => {
                self.set_pending(Pending::OpenRun(run));
                Ok(Step::Show(screen))
            },
            Ok(None) => self.open_run(&run),
            Err(e) => self.fail(e),
        }
    }

    /// Takes the user's answer to the screen that was asked for last. A
    /// rejection cancels the review and resets the engine. An approval
    /// completes the field, or opens the next run of inputs, which may ask
    /// for a screen of its own.
    pub fn confirm(&mut self, approved: bool) -> (step: Result<Step, ErrorCode>)
        requires
            old(self).wf(),
        ensures
            final(self).wf(),
            final(self).confirmed(*old(self), approved, step),
    {
        if !approved {
            return self.fail(ErrorCode::UserCancelled);
        }
        proof {
            self.lemma_wf_cursor();
        }
        match self.pending {
            Pending::Nothing => Ok(Step::Done),
            Pending::Reset => {
                self.reset();
                Ok(Step::Done)
            },
            Pending::OpenRun(run) => {
                self.reset();
                self.open_run(&run)
            },
        }
    }

    /// Whether the field at hand can be reviewed in this state: its amounts
    /// are encodings that fit their storage, and an input comes after the
    /// input that opened the run under way, with an index below the number
    /// of inputs; a last input that repeats the proof of the one before it
    /// needs a run under way.
    pub open spec fn ready_for(&self, unsigned_tx: &UnsignedTx) -> bool {
        match unsigned_tx {
            UnsignedTx::TxFee(tx_fee) => tx_fee.0 matches Some(fee) ==> fee.valid(),
            UnsignedTx::Inputs(inputs) => inputs.current_item matches Some(input) ==> {
                &&& inputs.current_index < inputs.total_size
                &&& self.previous_input() matches Some(p) ==> p.input_index < inputs.current_index
                &&& input.unlock_script is SameAsPrevious && inputs.current_index + 1
                    == inputs.total_size ==> self.previous_input() is Some
            },
            UnsignedTx::FixedOutputs(outputs) => outputs.current_item matches Some(output)
                ==> output_is_valid(&output),
            _ => true,
        }
    }

    /// Whether this state and `step` are what the review of the field at hand
    /// leaves of `before`: the network is shown as it is, with nothing to do
    /// on approval; the fee, an input and an output are reviewed as their own
    /// functions say; any other field, and a list without an item at hand,
    /// is passed over.
    pub open spec fn details_reviewed(
        &self,
        before: TxReviewer,
        unsigned_tx: &UnsignedTx,
        digests: &InputDigests,
        temp_data: Seq<u8>,
        step: Result<Step, ErrorCode>,
    ) -> bool {
        match unsigned_tx {
            UnsignedTx::NetworkId(id) => {
                &&& step matches Ok(Step::Show(screen)) && screen.shows(
                    network_message(),
                    seq![("Network"@, network_name(*id))],
                )
                &&& self.pending() is Nothing
                &&& self.cursor() == before.cursor()
                &&& self.bytes() == before.bytes()
                &&& self.previous_input() == before.previous_input()
            },
            UnsignedTx::TxFee(tx_fee) => self.fee_reviewed(before, tx_fee, step),
            UnsignedTx::Inputs(inputs) => match inputs.current_item {
                Some(input) => self.input_reviewed(
                    before,
                    &input,
                    inputs.current_index as nat,
                    inputs.total_size as nat,
                    digests,
                    step,
                ),
                None => step matches Ok(Step::Done) && self.same_as(before),
            },
            UnsignedTx::FixedOutputs(outputs) => match outputs.current_item {
                Some(output) => self.output_reviewed(
                    before,
                    &output,
                    outputs.current_index as nat,
                    temp_data,
                    step,
                ),
                None => step matches Ok(Step::Done) && self.same_as(before),
            },
            UnsignedTx::Other => step matches Ok(Step::Done) && self.same_as(before),
        }
    }

    /// Reviews the field that the decoder has at hand. `temp_data` holds the
    /// bytes that came with the field: for an output that several keys lock,
    /// the script that its address is made of.
    pub fn review_tx_details(
        &mut self,
        unsigned_tx: &UnsignedTx,
        digests: &InputDigests,
        temp_data: &StagingBuffer,
    ) -> (step: Result<Step, ErrorCode>)
        requires
            old(self).wf(),
            old(self).ready_for(unsigned_tx),
        ensures
            final(self).wf(),
            final(self).details_reviewed(
                *old(self),
                unsigned_tx,
                digests,
                temp_data.staged(),
                step,
            ),
    {
        match unsigned_tx {
            UnsignedTx::NetworkId(byte) => {
                self.set_pending(Pending::Nothing);
                Ok(Step::Show(Self::review_network(*byte)))
            },
            UnsignedTx::TxFee(tx_fee) => self.review_tx_fee(tx_fee),
            UnsignedTx::Inputs(inputs) => {
                match inputs.get_current_item() {
                    Some(current_input) => self.review_input(
                        current_input,
                        inputs.current_index as usize,
                        inputs.size(),
                        digests,
                    ),
                    None => Ok(Step::Done),
                }
            },
            UnsignedTx::FixedOutputs(outputs) => {
                match outputs.get_current_item() {
                    Some(current_output) => self.review_output(
                        current_output,
                        outputs.current_index as usize,
                        temp_data.read_all(),
                    ),
                    None => Ok(Step::Done),
                }
            },
            UnsignedTx::Other => Ok(Step::Done),
        }
    }

    /// Whether the engine is in order while it may wait for an answer: if it
    /// waits for nothing that an approval would set off, the cursor stands
    /// where it stands between two fields.
    pub open spec fn orderly(&self) -> bool {
        self.pending() is Nothing ==> self.settled()
    }

    /// The review of a field leaves the cursor where it found it, but for
    /// the address of a run of inputs that it keeps. If the cursor stood
    /// right behind the address of the run under way, or at the start of the
    /// buffer without one, when the field began, then it stands so again as
    /// soon as the review has asked for no screen; and where it has asked
    /// for one, the engine is in order for the answer.
    pub proof fn lemma_review_settles(
        before: TxReviewer,
        after: TxReviewer,
        unsigned_tx: &UnsignedTx,
        digests: &InputDigests,
        temp_data: Seq<u8>,
        step: Result<Step, ErrorCode>,
    )
        requires
            before.wf(),
            before.settled(),
            before.ready_for(unsigned_tx),
            after.details_reviewed(before, unsigned_tx, digests, temp_data, step),
        ensures
            after.orderly(),
            !(step matches Ok(Step::Show(_))) ==> after.settled(),
    {
        before.lemma_wf_cursor();
    }

    /// An answer leaves the cursor where the field found it, too. If the
    /// engine was in order when the answer came, then the cursor stands right
    /// behind the address of the run under way, or at the start of the
    /// buffer without one, as soon as the answer has asked for no further
    /// screen; and where it has asked for one, the engine is in order for the
    /// next answer. So every field ends with the cursor where it began,
    /// however many screens it takes.
    pub proof fn lemma_answer_settles(
        before: TxReviewer,
        after: TxReviewer,
        approved: bool,
        step: Result<Step, ErrorCode>,
    )
        requires
            before.orderly(),
            after.confirmed(before, approved, step),
        ensures
            after.orderly(),
            !(step matches Ok(Step::Show(_))) ==> after.settled(),
    {
    }

    /// A screen that the user rejects cancels the review, whatever the engine
    /// was waiting for: the answer is `UserCancelled`, nothing is staged any
    /// more, and no run of inputs is under way.
    pub proof fn lemma_rejection_aborts(
        before: TxReviewer,
        after: TxReviewer,
        step: Result<Step, ErrorCode>,
    )
        requires
            after.confirmed(before, false, step),
        ensures
            step matches Err(e) && e == ErrorCode::UserCancelled,
            after.cursor() == 0,
            after.previous_input() is None,
            after.pending() is Nothing,
            after.settled(),
    {
    }
}

} // verus!
