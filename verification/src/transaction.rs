//! The transaction description of the ledger's data model: passive data
//! with no behaviour of its own.

use vstd::prelude::*;

use crate::account::Address;

verus! {

/// One ledger transaction: its payload and the fee tip offered with it.
#[derive(Clone)]
pub struct Transaction {
    pub inner: TransactionInner,
    pub tip: u128,
}

/// What a transaction does.
#[derive(Clone)]
pub enum TransactionInner {
    Transfer { from: Address, to: Address, amount: u128 },
    ContractCall(),
}

} // verus!
