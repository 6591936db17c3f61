//! The block description of the ledger's data model, and the canonical
//! byte form its digests are computed over.

use vstd::prelude::*;

use crate::encoding::{push_slice, push_u128_be, push_u32_be, push_u64_be, u128_to_be, u32_to_be,
    u64_to_be};
use crate::hash::sha256_of;
use crate::transaction::{Transaction, TransactionInner};

verus! {

/// A block's header: what identifies the block's place in the chain.
#[derive(Clone)]
pub struct BlockHeader {
    pub version: u32,
    pub previous_hash: crate::hash::Hash,
    pub timestamp: u64,
}

/// One block: header, transactions, and the state root they lead to.
#[derive(Clone)]
pub struct Block {
    pub header: BlockHeader,
    pub transactions: Vec<Transaction>,
    pub state_root: crate::hash::Hash,
    pub timestamp: u64,
}

/// Canonical bytes of a transaction's payload.
pub open spec fn tx_inner_bytes(t: TransactionInner) -> Seq<u8> {
    match t {
        TransactionInner::Transfer { from, to, amount } => seq![0u8] + from@ + to@ + u128_to_be(
            amount,
        ),
        TransactionInner::ContractCall() => seq![1u8],
    }
}

/// Canonical bytes of a transaction.
pub open spec fn tx_bytes(t: Transaction) -> Seq<u8> {
    tx_inner_bytes(t.inner) + u128_to_be(t.tip)
}

/// Canonical bytes of a transaction list, in order.
pub open spec fn txs_bytes(ts: Seq<Transaction>) -> Seq<u8>
    decreases ts.len(),
{
    if ts.len() == 0 {
        Seq::empty()
    } else {
        tx_bytes(ts[0]) + txs_bytes(ts.skip(1))
    }
}

/// Canonical bytes of a header: version, parent digest, timestamp.
pub open spec fn header_bytes(h: BlockHeader) -> Seq<u8> {
    u32_to_be(h.version) + h.previous_hash@ + u64_to_be(h.timestamp)
}

/// Canonical bytes of a block: its header, the transaction count and
/// transactions, the state root, and the timestamp.
pub open spec fn block_bytes(b: Block) -> Seq<u8> {
    header_bytes(b.header) + u32_to_be(b.transactions@.len() as u32) + txs_bytes(b.transactions@)
        + b.state_root@ + u64_to_be(b.timestamp)
}

proof fn lemma_txs_bytes_snoc(ts: Seq<Transaction>, i: int)
    requires
        0 <= i < ts.len(),
    ensures
        txs_bytes(ts.take(i + 1)) == txs_bytes(ts.take(i)) + tx_bytes(ts[i]),
    decreases i,
{
    if i == 0 {
        assert(ts.take(1).skip(1) =~= Seq::<Transaction>::empty());
        assert(ts.take(0) =~= Seq::<Transaction>::empty());
        assert(ts.take(1)[0] == ts[0]);
        assert(tx_bytes(ts[0]) + Seq::<u8>::empty() =~= Seq::<u8>::empty() + tx_bytes(ts[0]));
    } else {
        let t = ts.skip(1);
        lemma_txs_bytes_snoc(t, i - 1);
        assert(ts.take(i + 1).skip(1) =~= t.take(i));
        assert(ts.take(i).skip(1) =~= t.take(i - 1));
        assert(ts.take(i + 1)[0] == ts[0]);
        assert(ts.take(i)[0] == ts[0]);
        assert(t[i - 1] == ts[i]);
        assert(tx_bytes(ts[0]) + (txs_bytes(t.take(i - 1)) + tx_bytes(ts[i])) =~= (tx_bytes(ts[0])
            + txs_bytes(t.take(i - 1))) + tx_bytes(ts[i]));
    }
}

fn push_tx(out: &mut Vec<u8>, t: &Transaction)
    ensures
        final(out)@ == old(out)@ + tx_bytes(*t),
{
    match &t.inner {
        TransactionInner::Transfer { from, to, amount } => {
            out.push(0u8);
            push_slice(out, from.as_slice());
            push_slice(out, to.as_slice());
            push_u128_be(out, *amount);
        },
        TransactionInner::ContractCall() => {
            out.push(1u8);
        },
    }
    push_u128_be(out, t.tip);
    proof {
        broadcast use vstd::array::group_array_axioms;

        assert(final(out)@ =~= old(out)@ + tx_bytes(*t));
    }
}

impl BlockHeader {
    /// The header's digest over its canonical bytes.
    pub fn hash(&self) -> (r: crate::hash::Hash)
        ensures
            r@ == sha256_of(header_bytes(*self)),
    {
        let mut out: Vec<u8> = Vec::new();
        push_u32_be(&mut out, self.version);
        push_slice(&mut out, self.previous_hash.as_slice());
        push_u64_be(&mut out, self.timestamp);
        proof {
            assert(out@ =~= header_bytes(*self));
        }
        crate::hash::Hash::hash(out.as_slice())
    }
}

impl Block {
    /// Assembles a block; the header's timestamp repeats the block's.
    pub fn new(
        version: u32,
        previous_hash: crate::hash::Hash,
        transactions: Vec<Transaction>,
        state_root: crate::hash::Hash,
        timestamp: u64,
    ) -> (r: Self)
        ensures
            r.header.version == version,
            r.header.previous_hash == previous_hash,
            r.header.timestamp == timestamp,
            r.transactions == transactions,
            r.state_root == state_root,
            r.timestamp == timestamp,
    {
        Block {
            header: BlockHeader { version, previous_hash, timestamp },
            transactions,
            state_root,
            timestamp,
        }
    }

    /// The block's digest over its canonical bytes. The transaction
    /// count is carried in a 32-bit field, which bounds the list.
    pub fn hash(&self) -> (r: crate::hash::Hash)
        requires
            self.transactions@.len() <= 0xFFFF_FFFF,
        ensures
            r@ == sha256_of(block_bytes(*self)),
    {
        let ghost ts = self.transactions@;
        let mut out: Vec<u8> = Vec::new();
        push_u32_be(&mut out, self.header.version);
        push_slice(&mut out, self.header.previous_hash.as_slice());
        push_u64_be(&mut out, self.header.timestamp);
        proof {
            assert(out@ =~= header_bytes(self.header));
        }
        push_u32_be(&mut out, self.transactions.len() as u32);
        let ghost pre = out@;
        let mut i: usize = 0;
        while i < self.transactions.len()
            invariant
                0 <= i <= ts.len(),
                ts == self.transactions@,
                out@ == pre + txs_bytes(ts.take(i as int)),
            decreases ts.len() - i,
        {
            proof {
                lemma_txs_bytes_snoc(ts, i as int);
            }
            push_tx(&mut out, &self.transactions[i]);
            proof {
                assert(out@ =~= pre + txs_bytes(ts.take(i + 1)));
            }
            i += 1;
        }
        proof {
            assert(ts.take(ts.len() as int) =~= ts);
        }
        push_slice(&mut out, self.state_root.as_slice());
        push_u64_be(&mut out, self.timestamp);
        proof {
            assert(out@ =~= block_bytes(*self));
        }
        crate::hash::Hash::hash(out.as_slice())
    }

    /// The digest of the block this one extends.
    pub fn parent_hash(&self) -> (r: crate::hash::Hash)
        ensures
            r == self.header.previous_hash,
    {
        self.header.previous_hash
    }
}

} // verus!
