//! The fields of an unsigned transaction, as far as the review reads them.

use crate::error::ErrorCode;
use crate::u256::U256;
use vstd::prelude::*;

verus! {

/// A 32-byte hash.
pub struct Byte32(pub [u8; 32]);

/// A compressed public key.
pub struct PublicKey(pub [u8; 33]);

/// The proof that an input supplies for spending an output.
pub enum UnlockScript {
    /// One signature, by the key given.
    P2PKH(PublicKey),
    /// Several signatures.
    P2MPKH,
    /// A script; its bytes come with the input as temporary data.
    P2SH,
    /// The proof of the input before this one.
    SameAsPrevious,
}

/// One input of a transaction.
pub struct TxInput {
    pub unlock_script: UnlockScript,
}

/// The condition under which an output can be spent.
pub enum LockupScript {
    /// The hash of one public key.
    P2PKH(Byte32),
    /// Several public keys; the script's bytes come with the output as
    /// temporary data.
    P2MPKH,
    /// The hash of a script.
    P2SH(Byte32),
}

impl LockupScript {
    /// The byte that stands for the kind of script in an address.
    pub open spec fn type_byte(&self) -> u8 {
        match self {
            LockupScript::P2PKH(_) => 0,
            LockupScript::P2MPKH => 1,
            LockupScript::P2SH(_) => 2,
        }
    }

    /// The byte that stands for the kind of script in an address.
    pub fn get_type(&self) -> (kind: u8)
        ensures
            kind == self.type_byte(),
    {
        match self {
            LockupScript::P2PKH(_) => 0,
            LockupScript::P2MPKH => 1,
            LockupScript::P2SH(_) => 2,
        }
    }
}

/// An amount of a token.
pub struct Token {
    pub id: Byte32,
    pub amount: U256,
}

/// One output of a transaction that carries assets. It holds at most one token.
pub struct AssetOutput {
    pub amount: U256,
    pub lockup_script: LockupScript,
    pub token: Option<Token>,
}

/// The fee of a transaction, or `None` where the gas amount times the gas
/// price does not fit 256 bits.
pub struct TxFee(pub Option<U256>);

impl TxFee {
    /// The fee, if it could be computed.
    pub fn get(&self) -> (fee: &Option<U256>)
        ensures
            *fee == self.0,
    {
        &self.0
    }
}

/// A list that is decoded one item at a time: the item at hand, its
/// position, and the number of items in the list.
pub struct AVector<T> {
    pub current_item: Option<T>,
    pub current_index: u16,
    pub total_size: usize,
}

impl<T> AVector<T> {
    /// The item at hand.
    pub fn get_current_item(&self) -> (item: Option<&T>)
        ensures
            item is Some <==> self.current_item is Some,
            item matches Some(i) ==> self.current_item == Some(*i),
    {
        self.current_item.as_ref()
    }

    /// Number of items in the list.
    pub fn size(&self) -> (size: usize)
        ensures
            size == self.total_size,
    {
        self.total_size
    }
}

/// What the decoder of an unsigned transaction hands on, one field at a time.
pub enum UnsignedTx {
    /// The network that the transaction is for.
    NetworkId(u8),
    /// The fee.
    TxFee(TxFee),
    /// The inputs, with one of them at hand.
    Inputs(AVector<TxInput>),
    /// The outputs, with one of them at hand.
    FixedOutputs(AVector<AssetOutput>),
    /// A field that is not shown.
    Other,
}

/// The digests that the host computes before an input is reviewed. A digest is
/// the 32-byte hash of the chain's address scheme.
pub struct InputDigests {
    /// The digest of what `unlock_preimage` names for the input, or the
    /// error that hashing gave.
    pub unlock: Result<[u8; 32], ErrorCode>,
    /// The digest of the device's own public key for the signing path, or
    /// `None` where the key could not be derived.
    pub device: Option<[u8; 32]>,
}

/// The bytes whose digest makes the address of an input: the public key for
/// one signature, the script's bytes for a script, and nothing for the other
/// kinds, whose address is not derived from a digest.
pub open spec fn unlock_preimage_of(input: &TxInput, temp_data: Seq<u8>) -> Option<Seq<u8>> {
    match input.unlock_script {
        UnlockScript::P2PKH(key) => Some(key.0@),
        UnlockScript::P2SH => Some(temp_data),
        _ => None,
    }
}

/// The bytes whose digest makes the address of an input.
pub fn unlock_preimage<'a>(input: &'a TxInput, temp_data: &'a [u8]) -> (preimage: Option<
    &'a [u8],
>)
    ensures
        preimage is Some <==> unlock_preimage_of(input, temp_data@) is Some,
        preimage matches Some(p) ==> Some(p@) == unlock_preimage_of(input, temp_data@),
{
    match &input.unlock_script {
        UnlockScript::P2PKH(key) => Some(key.0.as_slice()),
        UnlockScript::P2SH => Some(temp_data),
        _ => None,
    }
}

} // verus!
