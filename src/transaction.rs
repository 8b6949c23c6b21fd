//! Transactions: a namespace id, payload bytes and the commitment that identifies them.
use vstd::prelude::*;

use crate::bytes::{copy_bytes, keccak256, keccak_of, push_bytes, push_u64_le, u64_le};

verus! {

/// The largest namespace id that a transaction may carry.
pub const MAX_NAMESPACE: u64 = 0xffff_ffff;

/// What a transaction holds, as mathematical values.
pub struct TxModel {
    pub namespace: u64,
    pub payload: Seq<u8>,
    pub commitment: Seq<u8>,
}

/// A transaction; immutable once created.
#[derive(Clone, Debug)]
pub struct Transaction {
    pub namespace: u64,
    pub payload: Vec<u8>,
    pub commitment: Vec<u8>,
}

/// Why a transaction was not accepted into the pool.
#[derive(Debug)]
pub enum SubmitError {
    /// The namespace id does not fit in 32 bits.
    InvalidNamespace,
    /// A transaction with this commitment is already pending.
    Duplicate { commitment: Vec<u8> },
    /// The pool holds as many transactions as its capacity allows.
    PoolFull,
}

/// The bytes that a transaction's commitment is computed over.
pub open spec fn tx_bytes(namespace: u64, payload: Seq<u8>) -> Seq<u8> {
    u64_le(namespace) + payload
}

/// The commitment of a transaction with this namespace and payload.
pub open spec fn tx_commitment(namespace: u64, payload: Seq<u8>) -> Seq<u8> {
    keccak_of(tx_bytes(namespace, payload))
}

impl View for Transaction {
    type V = TxModel;

    open spec fn view(&self) -> TxModel {
        TxModel { namespace: self.namespace, payload: self.payload@, commitment: self.commitment@ }
    }
}

impl TxModel {
    /// The namespace id is in range and the commitment is the one computed from the content.
    pub open spec fn valid(self) -> bool {
        &&& self.namespace <= MAX_NAMESPACE
        &&& self.commitment == tx_commitment(self.namespace, self.payload)
    }
}

/// The models of a vector of transactions.
pub open spec fn tx_models(txs: Seq<Transaction>) -> Seq<TxModel> {
    txs.map_values(|t: Transaction| t@)
}

/// Computes the commitment of a transaction's content.
pub fn compute_commitment(namespace: u64, payload: &Vec<u8>) -> (r: Vec<u8>)
    ensures
        r@ == tx_commitment(namespace, payload@),
{
    let mut data: Vec<u8> = Vec::new();
    push_u64_le(&mut data, namespace);
    push_bytes(&mut data, payload);
    assert(data@ =~= tx_bytes(namespace, payload@));
    keccak256(data.as_slice())
}

impl Transaction {
    /// Makes a transaction, computing its commitment; the namespace id must fit in 32 bits.
    pub fn new(namespace: u64, payload: Vec<u8>) -> (r: Result<Transaction, SubmitError>)
        ensures
            namespace <= MAX_NAMESPACE ==> (r matches Ok(t) && t@ == (TxModel {
                namespace,
                payload: payload@,
                commitment: tx_commitment(namespace, payload@),
            })),
            namespace > MAX_NAMESPACE ==> r matches Err(SubmitError::InvalidNamespace),
    {
        if namespace > MAX_NAMESPACE {
            return Err(SubmitError::InvalidNamespace);
        }
        let commitment = compute_commitment(namespace, &payload);
        Ok(Transaction { namespace, payload, commitment })
    }

    /// A copy of this transaction.
    pub fn duplicate(&self) -> (r: Transaction)
        ensures
            r@ == self@,
    {
        Transaction {
            namespace: self.namespace,
            payload: copy_bytes(&self.payload),
            commitment: copy_bytes(&self.commitment),
        }
    }
}

} // verus!
