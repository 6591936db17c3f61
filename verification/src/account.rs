//! The account description of the ledger's data model: passive data with
//! no behaviour of its own.

use vstd::prelude::*;

verus! {

/// A ledger address: 32 opaque bytes.
pub type Address = [u8; 32];

/// One account's state.
pub struct Account {
    pub address: Address,
    pub balance: u128,
    pub nonce: u64,
    pub contract_code: Option<Vec<u8>>,
}

impl Account {
    /// A fresh account: zero balance, zero nonce, no contract code.
    pub fn new(address: Address) -> (r: Self)
        ensures
            r.address@ == address@,
            r.balance == 0,
            r.nonce == 0,
            r.contract_code is None,
    {
        Account { address, balance: 0, nonce: 0, contract_code: None }
    }
}

} // verus!
