//! Transactions and the signer-recovery capability.
//!
//! Recovering a sender address from a transaction's signature is an external
//! capability: live batch processing and fraud-proof replay are both
//! parameterized by the same implementation, so the two paths can never
//! diverge.

use vstd::prelude::*;

verus! {

/// Mathematical model of a transaction: every field as a plain value.
pub struct TxModel {
    pub nonce: u64,
    pub gas_price: Seq<u8>,
    pub gas_limit: u64,
    pub to: Option<Seq<u8>>,
    pub value: Seq<u8>,
    pub data: Seq<u8>,
    pub v: u8,
    pub r: Seq<u8>,
    pub s: Seq<u8>,
}

/// A rollup transaction. `to == None` denotes contract creation, which is
/// accepted but performs no balance change.
pub struct Transaction {
    pub nonce: u64,
    pub gas_price: [u8; 32],
    pub gas_limit: u64,
    pub to: Option<[u8; 20]>,
    pub value: [u8; 32],
    pub data: Vec<u8>,
    pub v: u8,
    pub r: [u8; 32],
    pub s: [u8; 32],
}

impl View for Transaction {
    type V = TxModel;

    open spec fn view(&self) -> TxModel {
        TxModel {
            nonce: self.nonce,
            gas_price: self.gas_price@,
            gas_limit: self.gas_limit,
            to: match self.to {
                Some(a) => Some(a@),
                None => None,
            },
            value: self.value@,
            data: self.data@,
            v: self.v,
            r: self.r@,
            s: self.s@,
        }
    }
}

impl Clone for Transaction {
    /// Clones preserve the transaction model exactly.
    fn clone(&self) -> (r: Self)
        ensures
            r@ == self@,
    {
        let r = Transaction {
            nonce: self.nonce,
            gas_price: self.gas_price,
            gas_limit: self.gas_limit,
            to: self.to,
            value: self.value,
            data: vstd::slice::slice_to_vec(self.data.as_slice()),
            v: self.v,
            r: self.r,
            s: self.s,
        };
        r
    }
}

/// The error returned when a transaction's signature admits no sender.
#[derive(Clone, Copy, PartialEq, Eq, Structural, Debug)]
pub enum SignatureError {
    InvalidSignature,
}

/// The all-zero address.
pub open spec fn zero_address() -> Seq<u8> {
    Seq::new(20, |i: int| 0u8)
}

/// The signer-recovery capability: maps a transaction to its sender address,
/// or fails when the signature cannot be recovered.
///
/// `recover_spec` fixes, per implementation, which sender (if any) each
/// transaction model recovers to; `recover` must return exactly that. Because
/// the result is a function of the transaction alone, any two replays that
/// share an implementation recover identical senders.
pub trait SignerRecovery: Sized {
    /// The sender this capability assigns to `tx`, or `None` when the
    /// signature is invalid.
    spec fn recover_spec(&self, tx: TxModel) -> Option<Seq<u8>>;

    /// Recovers the sender of `tx`, failing exactly when `recover_spec`
    /// assigns none.
    fn recover(&self, tx: &Transaction) -> (r: Result<[u8; 20], SignatureError>)
        ensures
            match r {
                Ok(a) => self.recover_spec(tx@) == Some(a@),
                Err(_) => self.recover_spec(tx@) is None,
            },
    ;
}

/// A placeholder recovery capability that attributes every transaction to the
/// all-zero address and never fails, standing in for real signature recovery.
pub struct StubSigner {}

impl SignerRecovery for StubSigner {
    open spec fn recover_spec(&self, tx: TxModel) -> Option<Seq<u8>> {
        Some(zero_address())
    }

    fn recover(&self, tx: &Transaction) -> (r: Result<[u8; 20], SignatureError>) {
        let a = [0u8; 20];
        assert(a@ =~= zero_address());
        Ok(a)
    }
}

/// A recovery capability that demands a plausible recovery id: transactions
/// whose `v` is 0 or 1 recover to the all-zero address, any other `v` fails
/// with an invalid-signature error. It exercises the failure path that a
/// production recovery implementation has.
pub struct CheckedStubSigner {}

impl SignerRecovery for CheckedStubSigner {
    open spec fn recover_spec(&self, tx: TxModel) -> Option<Seq<u8>> {
        if tx.v == 0 || tx.v == 1 {
            Some(zero_address())
        } else {
            None
        }
    }

    fn recover(&self, tx: &Transaction) -> (r: Result<[u8; 20], SignatureError>) {
        if tx.v == 0 || tx.v == 1 {
            let a = [0u8; 20];
            assert(a@ =~= zero_address());
            Ok(a)
        } else {
            Err(SignatureError::InvalidSignature)
        }
    }
}

} // verus!
