//! The wire messages and their binary encoding.
//!
//! A message is encoded as one tag byte followed by its fields in order.
//! Fixed-width integers are big-endian; a byte blob is a 32-bit length
//! followed by that many bytes; a list of blobs is a 32-bit count followed
//! by the blobs. Decoding consumes the whole input exactly: an unknown tag
//! or a malformed body is a recoverable, per-message error.

use vstd::prelude::*;

use crate::encoding::{
    lemma_u32_be_round_trip, lemma_u64_be_round_trip, push_u32_be, push_u64_be, read_bytes,
    read_u32_be, read_u64_be, u32_from_be, u32_to_be, u64_from_be, u64_to_be,
};

verus! {

/// Largest number of bytes a single message may encode to, and therefore
/// the largest frame payload a well-behaved peer ever sends. A frame
/// header declaring more than this means the stream is desynchronized.
pub const MAX_ENCODED_LEN: usize = 0x0400_0000;

pub const TAG_HANDSHAKE: u8 = 0;

pub const TAG_GET_BLOCKS: u8 = 1;

pub const TAG_BLOCKS: u8 = 2;

pub const TAG_GET_TRANSACTIONS: u8 = 3;

pub const TAG_TRANSACTIONS: u8 = 4;

pub const TAG_NEW_BLOCK: u8 = 5;

pub const TAG_NEW_TRANSACTION: u8 = 6;

pub const TAG_PING: u8 = 7;

pub const TAG_PONG: u8 = 8;

/// The closed set of wire messages. Block and transaction payloads cross
/// the wire as opaque byte blobs; the transport never interprets them.
#[derive(Debug, Clone, PartialEq, Eq)]
pub enum Message {
    Handshake { node_id: Vec<u8>, version: u32, chain_height: u64 },
    GetBlocks { from_height: u64, to_height: u64 },
    Blocks { blocks: Vec<Vec<u8>> },
    GetTransactions,
    Transactions { transactions: Vec<Vec<u8>> },
    NewBlock { block: Vec<u8> },
    NewTransaction { transaction: Vec<u8> },
    Ping,
    Pong,
}

/// The mathematical model of a message: the same variants over byte
/// sequences.
#[verifier::ext_equal]
pub enum MessageV {
    Handshake { node_id: Seq<u8>, version: u32, chain_height: u64 },
    GetBlocks { from_height: u64, to_height: u64 },
    Blocks { blocks: Seq<Seq<u8>> },
    GetTransactions,
    Transactions { transactions: Seq<Seq<u8>> },
    NewBlock { block: Seq<u8> },
    NewTransaction { transaction: Seq<u8> },
    Ping,
    Pong,
}

impl View for Message {
    type V = MessageV;

    open spec fn view(&self) -> MessageV {
        match self {
            Message::Handshake { node_id, version, chain_height } => MessageV::Handshake {
                node_id: node_id@,
                version: *version,
                chain_height: *chain_height,
            },
            Message::GetBlocks { from_height, to_height } => MessageV::GetBlocks {
                from_height: *from_height,
                to_height: *to_height,
            },
            Message::Blocks { blocks } => MessageV::Blocks { blocks: blocks.deep_view() },
            Message::GetTransactions => MessageV::GetTransactions,
            Message::Transactions { transactions } => MessageV::Transactions {
                transactions: transactions.deep_view(),
            },
            Message::NewBlock { block } => MessageV::NewBlock { block: block@ },
            Message::NewTransaction { transaction } => MessageV::NewTransaction {
                transaction: transaction@,
            },
            Message::Ping => MessageV::Ping,
            Message::Pong => MessageV::Pong,
        }
    }
}

/// Why a frame's payload failed to decode into a message.
#[derive(Debug, Clone, Copy, PartialEq, Eq, Structural)]
pub enum DecodeError {
    /// The tag byte names no message kind.
    UnknownTag,
    /// A field is truncated, or bytes trail the last field.
    Malformed,
}

pub open spec fn blob_to_bytes(b: Seq<u8>) -> Seq<u8> {
    u32_to_be(b.len() as u32) + b
}

pub open spec fn blobs_to_bytes(bs: Seq<Seq<u8>>) -> Seq<u8>
    decreases bs.len(),
{
    if bs.len() == 0 {
        Seq::empty()
    } else {
        blob_to_bytes(bs[0]) + blobs_to_bytes(bs.skip(1))
    }
}

/// Number of bytes the encoding of a blob list occupies.
pub open spec fn blobs_len(bs: Seq<Seq<u8>>) -> int
    decreases bs.len(),
{
    if bs.len() == 0 {
        0
    } else {
        4 + bs[0].len() + blobs_len(bs.skip(1))
    }
}

/// A message small enough for its encoding to fit in one frame; every
/// length and count then also fits in its 32-bit prefix.
pub open spec fn msg_wf(m: MessageV) -> bool {
    match m {
        MessageV::Handshake { node_id, .. } => 17 + node_id.len() <= MAX_ENCODED_LEN,
        MessageV::GetBlocks { .. } => true,
        MessageV::Blocks { blocks } => 5 + blobs_len(blocks) <= MAX_ENCODED_LEN,
        MessageV::GetTransactions => true,
        MessageV::Transactions { transactions } => 5 + blobs_len(transactions)
            <= MAX_ENCODED_LEN,
        MessageV::NewBlock { block } => 5 + block.len() <= MAX_ENCODED_LEN,
        MessageV::NewTransaction { transaction } => 5 + transaction.len() <= MAX_ENCODED_LEN,
        MessageV::Ping => true,
        MessageV::Pong => true,
    }
}

pub open spec fn spec_encode(m: MessageV) -> Seq<u8> {
    match m {
        MessageV::Handshake { node_id, version, chain_height } => seq![TAG_HANDSHAKE]
            + blob_to_bytes(node_id) + u32_to_be(version) + u64_to_be(chain_height),
        MessageV::GetBlocks { from_height, to_height } => seq![TAG_GET_BLOCKS] + u64_to_be(
            from_height,
        ) + u64_to_be(to_height),
        MessageV::Blocks { blocks } => seq![TAG_BLOCKS] + u32_to_be(blocks.len() as u32)
            + blobs_to_bytes(blocks),
        MessageV::GetTransactions => seq![TAG_GET_TRANSACTIONS],
        MessageV::Transactions { transactions } => seq![TAG_TRANSACTIONS] + u32_to_be(
            transactions.len() as u32,
        ) + blobs_to_bytes(transactions),
        MessageV::NewBlock { block } => seq![TAG_NEW_BLOCK] + blob_to_bytes(block),
        MessageV::NewTransaction { transaction } => seq![TAG_NEW_TRANSACTION] + blob_to_bytes(
            transaction,
        ),
        MessageV::Ping => seq![TAG_PING],
        MessageV::Pong => seq![TAG_PONG],
    }
}

pub open spec fn take_u32(s: Seq<u8>) -> Option<(u32, Seq<u8>)> {
    if s.len() >= 4 {
        Some((u32_from_be(s.take(4)), s.skip(4)))
    } else {
        None
    }
}

pub open spec fn take_u64(s: Seq<u8>) -> Option<(u64, Seq<u8>)> {
    if s.len() >= 8 {
        Some((u64_from_be(s.take(8)), s.skip(8)))
    } else {
        None
    }
}

pub open spec fn take_blob(s: Seq<u8>) -> Option<(Seq<u8>, Seq<u8>)> {
    match take_u32(s) {
        None => None,
        Some((n, rest)) => if rest.len() >= n {
            Some((rest.take(n as int), rest.skip(n as int)))
        } else {
            None
        },
    }
}

pub open spec fn take_blobs(s: Seq<u8>, count: nat) -> Option<(Seq<Seq<u8>>, Seq<u8>)>
    decreases count,
{
    if count == 0 {
        Some((Seq::empty(), s))
    } else {
        match take_blob(s) {
            None => None,
            Some((b, rest)) => match take_blobs(rest, (count - 1) as nat) {
                None => None,
                Some((bs, rest2)) => Some((seq![b] + bs, rest2)),
            },
        }
    }
}

pub open spec fn spec_decode_handshake(body: Seq<u8>) -> Result<MessageV, DecodeError> {
    match take_blob(body) {
        None => Err(DecodeError::Malformed),
        Some((node_id, r1)) => match take_u32(r1) {
            None => Err(DecodeError::Malformed),
            Some((version, r2)) => match take_u64(r2) {
                None => Err(DecodeError::Malformed),
                Some((chain_height, r3)) => if r3.len() == 0 {
                    Ok(MessageV::Handshake { node_id, version, chain_height })
                } else {
                    Err(DecodeError::Malformed)
                },
            },
        },
    }
}

pub open spec fn spec_decode_get_blocks(body: Seq<u8>) -> Result<MessageV, DecodeError> {
    match take_u64(body) {
        None => Err(DecodeError::Malformed),
        Some((from_height, r1)) => match take_u64(r1) {
            None => Err(DecodeError::Malformed),
            Some((to_height, r2)) => if r2.len() == 0 {
                Ok(MessageV::GetBlocks { from_height, to_height })
            } else {
                Err(DecodeError::Malformed)
            },
        },
    }
}

pub open spec fn spec_decode_blob_list(body: Seq<u8>) -> Result<Seq<Seq<u8>>, DecodeError> {
    match take_u32(body) {
        None => Err(DecodeError::Malformed),
        Some((count, r1)) => match take_blobs(r1, count as nat) {
            None => Err(DecodeError::Malformed),
            Some((bs, r2)) => if r2.len() == 0 {
                Ok(bs)
            } else {
                Err(DecodeError::Malformed)
            },
        },
    }
}

pub open spec fn spec_decode_single_blob(body: Seq<u8>) -> Result<Seq<u8>, DecodeError> {
    match take_blob(body) {
        None => Err(DecodeError::Malformed),
        Some((b, r1)) => if r1.len() == 0 {
            Ok(b)
        } else {
            Err(DecodeError::Malformed)
        },
    }
}

pub open spec fn spec_decode(s: Seq<u8>) -> Result<MessageV, DecodeError> {
    if s.len() == 0 {
        Err(DecodeError::Malformed)
    } else {
        let body = s.skip(1);
        if s[0] == TAG_HANDSHAKE {
            spec_decode_handshake(body)
        } else if s[0] == TAG_GET_BLOCKS {
            spec_decode_get_blocks(body)
        } else if s[0] == TAG_BLOCKS {
            match spec_decode_blob_list(body) {
                Ok(blocks) => Ok(MessageV::Blocks { blocks }),
                Err(e) => Err(e),
            }
        } else if s[0] == TAG_GET_TRANSACTIONS {
            if body.len() == 0 {
                Ok(MessageV::GetTransactions)
            } else {
                Err(DecodeError::Malformed)
            }
        } else if s[0] == TAG_TRANSACTIONS {
            match spec_decode_blob_list(body) {
                Ok(transactions) => Ok(MessageV::Transactions { transactions }),
                Err(e) => Err(e),
            }
        } else if s[0] == TAG_NEW_BLOCK {
            match spec_decode_single_blob(body) {
                Ok(block) => Ok(MessageV::NewBlock { block }),
                Err(e) => Err(e),
            }
        } else if s[0] == TAG_NEW_TRANSACTION {
            match spec_decode_single_blob(body) {
                Ok(transaction) => Ok(MessageV::NewTransaction { transaction }),
                Err(e) => Err(e),
            }
        } else if s[0] == TAG_PING {
            if body.len() == 0 {
                Ok(MessageV::Ping)
            } else {
                Err(DecodeError::Malformed)
            }
        } else if s[0] == TAG_PONG {
            if body.len() == 0 {
                Ok(MessageV::Pong)
            } else {
                Err(DecodeError::Malformed)
            }
        } else {
            Err(DecodeError::UnknownTag)
        }
    }
}

pub proof fn lemma_blobs_len_parts(bs: Seq<Seq<u8>>)
    ensures
        blobs_len(bs) >= 4 * bs.len(),
        forall|i: int| 0 <= i < bs.len() ==> #[trigger] bs[i].len() + 4 <= blobs_len(bs),
    decreases bs.len(),
{
    if bs.len() > 0 {
        lemma_blobs_len_parts(bs.skip(1));
        assert forall|i: int| 0 <= i < bs.len() implies #[trigger] bs[i].len() + 4 <= blobs_len(
            bs,
        ) by {
            if i > 0 {
                assert(bs.skip(1)[i - 1] == bs[i]);
            }
        }
    }
}

proof fn lemma_take_u32_concat(x: u32, rest: Seq<u8>)
    ensures
        take_u32(u32_to_be(x) + rest) == Some((x, rest)),
{
    lemma_u32_be_round_trip(x);
    let s = u32_to_be(x) + rest;
    assert(s.take(4) =~= u32_to_be(x));
    assert(s.skip(4) =~= rest);
}

proof fn lemma_take_u64_concat(x: u64, rest: Seq<u8>)
    ensures
        take_u64(u64_to_be(x) + rest) == Some((x, rest)),
{
    lemma_u64_be_round_trip(x);
    let s = u64_to_be(x) + rest;
    assert(s.take(8) =~= u64_to_be(x));
    assert(s.skip(8) =~= rest);
}

proof fn lemma_take_blob_concat(b: Seq<u8>, rest: Seq<u8>)
    requires
        b.len() <= 0xFFFF_FFFF,
    ensures
        take_blob(blob_to_bytes(b) + rest) == Some((b, rest)),
{
    assert(blob_to_bytes(b) + rest =~= u32_to_be(b.len() as u32) + (b + rest));
    lemma_take_u32_concat(b.len() as u32, b + rest);
    assert((b + rest).take(b.len() as int) =~= b);
    assert((b + rest).skip(b.len() as int) =~= rest);
}

proof fn lemma_take_blobs_concat(bs: Seq<Seq<u8>>, rest: Seq<u8>)
    requires
        forall|i: int| 0 <= i < bs.len() ==> #[trigger] bs[i].len() <= 0xFFFF_FFFF,
    ensures
        take_blobs(blobs_to_bytes(bs) + rest, bs.len()) == Some((bs, rest)),
    decreases bs.len(),
{
    if bs.len() == 0 {
        assert(blobs_to_bytes(bs) + rest =~= rest);
        assert(take_blobs(rest, 0) == Some((Seq::<Seq<u8>>::empty(), rest)));
        assert(bs =~= Seq::<Seq<u8>>::empty());
    } else {
        let tail = bs.skip(1);
        assert(blobs_to_bytes(bs) + rest =~= blob_to_bytes(bs[0]) + (blobs_to_bytes(tail) + rest));
        lemma_take_blob_concat(bs[0], blobs_to_bytes(tail) + rest);
        assert(forall|i: int|
            0 <= i < tail.len() ==> #[trigger] tail[i].len() <= 0xFFFF_FFFF) by {
            assert(forall|i: int| 0 <= i < tail.len() ==> tail[i] == bs[i + 1]);
        }
        lemma_take_blobs_concat(tail, rest);
        assert(seq![bs[0]] + tail =~= bs);
    }
}

pub proof fn lemma_blobs_bytes_len(bs: Seq<Seq<u8>>)
    ensures
        blobs_to_bytes(bs).len() == blobs_len(bs),
    decreases bs.len(),
{
    if bs.len() > 0 {
        lemma_blobs_bytes_len(bs.skip(1));
    }
}

proof fn lemma_blobs_to_bytes_snoc(bs: Seq<Seq<u8>>, i: int)
    requires
        0 <= i < bs.len(),
    ensures
        blobs_to_bytes(bs.take(i + 1)) == blobs_to_bytes(bs.take(i)) + blob_to_bytes(bs[i]),
    decreases i,
{
    if i == 0 {
        assert(bs.take(1).skip(1) =~= Seq::<Seq<u8>>::empty());
        assert(bs.take(0) =~= Seq::<Seq<u8>>::empty());
        assert(bs.take(1)[0] == bs[0]);
        assert(blob_to_bytes(bs[0]) + Seq::<u8>::empty() =~= Seq::<u8>::empty() + blob_to_bytes(
            bs[0],
        ));
    } else {
        let t = bs.skip(1);
        lemma_blobs_to_bytes_snoc(t, i - 1);
        assert(bs.take(i + 1).skip(1) =~= t.take(i));
        assert(bs.take(i).skip(1) =~= t.take(i - 1));
        assert(bs.take(i + 1)[0] == bs[0]);
        assert(bs.take(i)[0] == bs[0]);
        assert(t[i - 1] == bs[i]);
        assert(blob_to_bytes(bs[0]) + (blobs_to_bytes(t.take(i - 1)) + blob_to_bytes(bs[i])) =~= (
        blob_to_bytes(bs[0]) + blobs_to_bytes(t.take(i - 1))) + blob_to_bytes(bs[i]));
    }
}

proof fn lemma_blobs_len_snoc(bs: Seq<Seq<u8>>, i: int)
    requires
        0 <= i < bs.len(),
    ensures
        blobs_len(bs.take(i + 1)) == blobs_len(bs.take(i)) + 4 + bs[i].len(),
    decreases i,
{
    if i == 0 {
        assert(bs.take(1).skip(1) =~= Seq::<Seq<u8>>::empty());
        assert(bs.take(0) =~= Seq::<Seq<u8>>::empty());
        assert(bs.take(1)[0] == bs[0]);
    } else {
        let t = bs.skip(1);
        lemma_blobs_len_snoc(t, i - 1);
        assert(bs.take(i + 1).skip(1) =~= t.take(i));
        assert(bs.take(i).skip(1) =~= t.take(i - 1));
        assert(bs.take(i + 1)[0] == bs[0]);
        assert(bs.take(i)[0] == bs[0]);
        assert(t[i - 1] == bs[i]);
    }
}

proof fn lemma_blobs_len_prefix(bs: Seq<Seq<u8>>, j: int)
    requires
        0 <= j <= bs.len(),
    ensures
        blobs_len(bs.take(j)) <= blobs_len(bs),
    decreases bs.len(),
{
    lemma_blobs_len_parts(bs);
    if j > 0 && bs.len() > 0 {
        let t = bs.skip(1);
        lemma_blobs_len_prefix(t, j - 1);
        assert(bs.take(j).skip(1) =~= t.take(j - 1));
        assert(bs.take(j)[0] == bs[0]);
    } else {
        assert(bs.take(0) =~= Seq::<Seq<u8>>::empty());
    }
}

/// Round trip: decoding the encoding of any well-formed message gives back
/// exactly that message.
pub proof fn lemma_round_trip(m: MessageV)
    requires
        msg_wf(m),
    ensures
        spec_decode(spec_encode(m)) == Ok::<MessageV, DecodeError>(m),
{
    let e = spec_encode(m);
    match m {
        MessageV::Handshake { node_id, version, chain_height } => {
            let mid = u32_to_be(version) + u64_to_be(chain_height);
            assert(e.skip(1) =~= blob_to_bytes(node_id) + mid);
            lemma_take_blob_concat(node_id, mid);
            lemma_take_u32_concat(version, u64_to_be(chain_height));
            assert(u64_to_be(chain_height) =~= u64_to_be(chain_height) + Seq::<u8>::empty());
            lemma_take_u64_concat(chain_height, Seq::<u8>::empty());
        },
        MessageV::GetBlocks { from_height, to_height } => {
            assert(e.skip(1) =~= u64_to_be(from_height) + u64_to_be(to_height));
            lemma_take_u64_concat(from_height, u64_to_be(to_height));
            assert(u64_to_be(to_height) =~= u64_to_be(to_height) + Seq::<u8>::empty());
            lemma_take_u64_concat(to_height, Seq::<u8>::empty());
        },
        MessageV::Blocks { blocks } => {
            lemma_blobs_len_parts(blocks);
            assert(e.skip(1) =~= u32_to_be(blocks.len() as u32) + blobs_to_bytes(blocks));
            lemma_take_u32_concat(blocks.len() as u32, blobs_to_bytes(blocks));
            assert(blobs_to_bytes(blocks) =~= blobs_to_bytes(blocks) + Seq::<u8>::empty());
            lemma_take_blobs_concat(blocks, Seq::<u8>::empty());
        },
        MessageV::GetTransactions => {
            assert(e.skip(1) =~= Seq::<u8>::empty());
        },
        MessageV::Transactions { transactions } => {
            lemma_blobs_len_parts(transactions);
            assert(e.skip(1) =~= u32_to_be(transactions.len() as u32) + blobs_to_bytes(
                transactions,
            ));
            lemma_take_u32_concat(transactions.len() as u32, blobs_to_bytes(transactions));
            assert(blobs_to_bytes(transactions) =~= blobs_to_bytes(transactions)
                + Seq::<u8>::empty());
            lemma_take_blobs_concat(transactions, Seq::<u8>::empty());
        },
        MessageV::NewBlock { block } => {
            assert(e.skip(1) =~= blob_to_bytes(block) + Seq::<u8>::empty());
            lemma_take_blob_concat(block, Seq::<u8>::empty());
        },
        MessageV::NewTransaction { transaction } => {
            assert(e.skip(1) =~= blob_to_bytes(transaction) + Seq::<u8>::empty());
            lemma_take_blob_concat(transaction, Seq::<u8>::empty());
        },
        MessageV::Ping => {
            assert(e.skip(1) =~= Seq::<u8>::empty());
        },
        MessageV::Pong => {
            assert(e.skip(1) =~= Seq::<u8>::empty());
        },
    }
}

pub(crate) fn write_bytes(out: &mut Vec<u8>, b: &Vec<u8>)
    ensures
        final(out)@ == old(out)@ + b@,
{
    let mut i: usize = 0;
    while i < b.len()
        invariant
            0 <= i <= b@.len(),
            out@ == old(out)@ + b@.take(i as int),
        decreases b@.len() - i,
    {
        out.push(b[i]);
        proof {
            assert(old(out)@ + b@.take(i + 1) =~= (old(out)@ + b@.take(i as int)).push(
                b@[i as int],
            ));
        }
        i += 1;
    }
    proof {
        assert(old(out)@ + b@.take(b@.len() as int) =~= old(out)@ + b@);
    }
}

fn write_blob(out: &mut Vec<u8>, b: &Vec<u8>)
    requires
        b@.len() <= 0xFFFF_FFFF,
    ensures
        final(out)@ == old(out)@ + blob_to_bytes(b@),
{
    push_u32_be(out, b.len() as u32);
    write_bytes(out, b);
    proof {
        assert(final(out)@ =~= old(out)@ + blob_to_bytes(b@));
    }
}

fn write_blob_list(out: &mut Vec<u8>, bs: &Vec<Vec<u8>>)
    requires
        bs@.len() <= 0xFFFF_FFFF,
        forall|i: int| 0 <= i < bs@.len() ==> #[trigger] bs.deep_view()[i].len() <= 0xFFFF_FFFF,
    ensures
        final(out)@ == old(out)@ + u32_to_be(bs@.len() as u32) + blobs_to_bytes(bs.deep_view()),
{
    let ghost dv = bs.deep_view();
    proof {
        assert(dv.len() == bs@.len());
    }
    push_u32_be(out, bs.len() as u32);
    let mut i: usize = 0;
    while i < bs.len()
        invariant
            0 <= i <= bs@.len(),
            dv == bs.deep_view(),
            dv.len() == bs@.len(),
            forall|j: int| 0 <= j < bs@.len() ==> #[trigger] dv[j].len() <= 0xFFFF_FFFF,
            out@ == old(out)@ + u32_to_be(bs@.len() as u32) + blobs_to_bytes(dv.take(i as int)),
        decreases bs@.len() - i,
    {
        proof {
            assert(bs@[i as int]@ =~= dv[i as int]);
            lemma_blobs_to_bytes_snoc(dv, i as int);
        }
        write_blob(out, &bs[i]);
        proof {
            assert(out@ =~= old(out)@ + u32_to_be(bs@.len() as u32) + blobs_to_bytes(dv.take(
                i + 1,
            )));
        }
        i += 1;
    }
    proof {
        assert(dv.take(dv.len() as int) =~= dv);
    }
}

/// Encodes a well-formed message to its wire bytes.
pub fn encode(m: &Message) -> (r: Vec<u8>)
    requires
        msg_wf(m@),
    ensures
        r@ == spec_encode(m@),
        r@.len() <= MAX_ENCODED_LEN,
{
    let mut out: Vec<u8> = Vec::new();
    match m {
        Message::Handshake { node_id, version, chain_height } => {
            out.push(TAG_HANDSHAKE);
            write_blob(&mut out, node_id);
            push_u32_be(&mut out, *version);
            push_u64_be(&mut out, *chain_height);
        },
        Message::GetBlocks { from_height, to_height } => {
            out.push(TAG_GET_BLOCKS);
            push_u64_be(&mut out, *from_height);
            push_u64_be(&mut out, *to_height);
        },
        Message::Blocks { blocks } => {
            proof {
                lemma_blobs_len_parts(blocks.deep_view());
            }
            out.push(TAG_BLOCKS);
            write_blob_list(&mut out, blocks);
        },
        Message::GetTransactions => {
            out.push(TAG_GET_TRANSACTIONS);
        },
        Message::Transactions { transactions } => {
            proof {
                lemma_blobs_len_parts(transactions.deep_view());
            }
            out.push(TAG_TRANSACTIONS);
            write_blob_list(&mut out, transactions);
        },
        Message::NewBlock { block } => {
            out.push(TAG_NEW_BLOCK);
            write_blob(&mut out, block);
        },
        Message::NewTransaction { transaction } => {
            out.push(TAG_NEW_TRANSACTION);
            write_blob(&mut out, transaction);
        },
        Message::Ping => {
            out.push(TAG_PING);
        },
        Message::Pong => {
            out.push(TAG_PONG);
        },
    }
    proof {
        assert(out@ =~= spec_encode(m@));
        lemma_encoded_len_bound(m@);
    }
    out
}

/// A well-formed message encodes to at most `MAX_ENCODED_LEN` bytes.
pub proof fn lemma_encoded_len_bound(m: MessageV)
    ensures
        msg_wf(m) ==> spec_encode(m).len() <= MAX_ENCODED_LEN,
{
    match m {
        MessageV::Blocks { blocks } => {
            lemma_blobs_bytes_len(blocks);
        },
        MessageV::Transactions { transactions } => {
            lemma_blobs_bytes_len(transactions);
        },
        _ => {},
    }
}

fn blob_list_fits(bs: &Vec<Vec<u8>>) -> (r: bool)
    ensures
        r == (5 + blobs_len(bs.deep_view()) <= MAX_ENCODED_LEN),
{
    let ghost dv = bs.deep_view();
    let mut acc: usize = 5;
    let mut i: usize = 0;
    while i < bs.len()
        invariant
            0 <= i <= bs@.len(),
            dv == bs.deep_view(),
            dv.len() == bs@.len(),
            acc == 5 + blobs_len(dv.take(i as int)),
            acc <= MAX_ENCODED_LEN,
        decreases bs@.len() - i,
    {
        proof {
            assert(bs@[i as int]@ =~= dv[i as int]);
            lemma_blobs_len_snoc(dv, i as int);
        }
        let bl = bs[i].len();
        let room = MAX_ENCODED_LEN - acc;
        if room < 4 || bl > room - 4 {
            proof {
                lemma_blobs_len_prefix(dv, i + 1);
            }
            return false;
        }
        acc = acc + 4 + bl;
        i += 1;
    }
    proof {
        assert(dv.take(dv.len() as int) =~= dv);
    }
    true
}

/// Decides at run time whether a message is well-formed, so that callers
/// outside verified code can test before encoding.
pub fn check_wf(m: &Message) -> (r: bool)
    ensures
        r == msg_wf(m@),
{
    match m {
        Message::Handshake { node_id, .. } => node_id.len() <= MAX_ENCODED_LEN - 17,
        Message::GetBlocks { .. } => true,
        Message::Blocks { blocks } => blob_list_fits(blocks),
        Message::GetTransactions => true,
        Message::Transactions { transactions } => blob_list_fits(transactions),
        Message::NewBlock { block } => block.len() <= MAX_ENCODED_LEN - 5,
        Message::NewTransaction { transaction } => transaction.len() <= MAX_ENCODED_LEN - 5,
        Message::Ping => true,
        Message::Pong => true,
    }
}

/// Encodes a message if it is well-formed, and reports that it is too
/// large otherwise.
pub fn try_encode(m: &Message) -> (r: Option<Vec<u8>>)
    ensures
        match r {
            Some(v) => msg_wf(m@) && v@ == spec_encode(m@) && v@.len() <= MAX_ENCODED_LEN,
            None => !msg_wf(m@),
        },
{
    if check_wf(m) {
        Some(encode(m))
    } else {
        None
    }
}

/// The exec decode result stands for the model result: the same variant,
/// with the message seen through its view.
pub open spec fn result_matches(
    r: Result<Message, DecodeError>,
    s: Result<MessageV, DecodeError>,
) -> bool {
    match r {
        Ok(m) => s == Ok::<MessageV, DecodeError>(m@),
        Err(e) => s == Err::<MessageV, DecodeError>(e),
    }
}

fn try_read_u32(s: &[u8], pos: usize) -> (r: Option<(u32, usize)>)
    requires
        pos <= s@.len(),
    ensures
        match r {
            Some((x, p2)) => take_u32(s@.skip(pos as int)) == Some((x, s@.skip(p2 as int)))
                && pos <= p2 <= s@.len(),
            None => take_u32(s@.skip(pos as int)) is None,
        },
{
    if s.len() - pos < 4 {
        return None;
    }
    let x = read_u32_be(s, pos);
    proof {
        assert(s@.skip(pos as int).take(4) =~= s@.subrange(pos as int, pos as int + 4));
        assert(s@.skip(pos as int).skip(4) =~= s@.skip(pos as int + 4));
    }
    Some((x, pos + 4))
}

fn try_read_u64(s: &[u8], pos: usize) -> (r: Option<(u64, usize)>)
    requires
        pos <= s@.len(),
    ensures
        match r {
            Some((x, p2)) => take_u64(s@.skip(pos as int)) == Some((x, s@.skip(p2 as int)))
                && pos <= p2 <= s@.len(),
            None => take_u64(s@.skip(pos as int)) is None,
        },
{
    if s.len() - pos < 8 {
        return None;
    }
    let x = read_u64_be(s, pos);
    proof {
        assert(s@.skip(pos as int).take(8) =~= s@.subrange(pos as int, pos as int + 8));
        assert(s@.skip(pos as int).skip(8) =~= s@.skip(pos as int + 8));
    }
    Some((x, pos + 8))
}

fn try_read_blob(s: &[u8], pos: usize) -> (r: Option<(Vec<u8>, usize)>)
    requires
        pos <= s@.len(),
    ensures
        match r {
            Some((b, p2)) => take_blob(s@.skip(pos as int)) == Some((b@, s@.skip(p2 as int)))
                && pos <= p2 <= s@.len(),
            None => take_blob(s@.skip(pos as int)) is None,
        },
{
    match try_read_u32(s, pos) {
        None => None,
        Some((n, p1)) => {
            if s.len() - p1 < n as usize {
                proof {
                    assert(s@.skip(p1 as int).len() < n);
                }
                return None;
            }
            let b = read_bytes(s, p1, n as usize);
            proof {
                assert(s@.skip(p1 as int).take(n as int) =~= s@.subrange(
                    p1 as int,
                    p1 as int + n as int,
                ));
                assert(s@.skip(p1 as int).skip(n as int) =~= s@.skip(p1 as int + n as int));
            }
            Some((b, p1 + n as usize))
        },
    }
}

fn decode_handshake(body: &[u8]) -> (r: Result<Message, DecodeError>)
    ensures
        result_matches(r, spec_decode_handshake(body@)),
{
    proof {
        assert(body@.skip(0) =~= body@);
    }
    match try_read_blob(body, 0) {
        None => Err(DecodeError::Malformed),
        Some((node_id, p1)) => match try_read_u32(body, p1) {
            None => Err(DecodeError::Malformed),
            Some((version, p2)) => match try_read_u64(body, p2) {
                None => Err(DecodeError::Malformed),
                Some((chain_height, p3)) => {
                    if p3 == body.len() {
                        proof {
                            assert(body@.skip(p3 as int).len() == 0);
                        }
                        Ok(Message::Handshake { node_id, version, chain_height })
                    } else {
                        proof {
                            assert(body@.skip(p3 as int).len() != 0);
                        }
                        Err(DecodeError::Malformed)
                    }
                },
            },
        },
    }
}

fn decode_get_blocks(body: &[u8]) -> (r: Result<Message, DecodeError>)
    ensures
        result_matches(r, spec_decode_get_blocks(body@)),
{
    proof {
        assert(body@.skip(0) =~= body@);
    }
    match try_read_u64(body, 0) {
        None => Err(DecodeError::Malformed),
        Some((from_height, p1)) => match try_read_u64(body, p1) {
            None => Err(DecodeError::Malformed),
            Some((to_height, p2)) => {
                if p2 == body.len() {
                    proof {
                        assert(body@.skip(p2 as int).len() == 0);
                    }
                    Ok(Message::GetBlocks { from_height, to_height })
                } else {
                    proof {
                        assert(body@.skip(p2 as int).len() != 0);
                    }
                    Err(DecodeError::Malformed)
                }
            },
        },
    }
}

fn decode_blob_list(body: &[u8]) -> (r: Result<Vec<Vec<u8>>, DecodeError>)
    ensures
        match r {
            Ok(v) => spec_decode_blob_list(body@) == Ok::<Seq<Seq<u8>>, DecodeError>(
                v.deep_view(),
            ),
            Err(e) => spec_decode_blob_list(body@) == Err::<Seq<Seq<u8>>, DecodeError>(e),
        },
{
    proof {
        assert(body@.skip(0) =~= body@);
    }
    match try_read_u32(body, 0) {
        None => Err(DecodeError::Malformed),
        Some((count, p1)) => {
            let mut acc: Vec<Vec<u8>> = Vec::new();
            let mut pos: usize = p1;
            let mut i: u32 = 0;
            proof {
                assert(acc.deep_view() =~= Seq::<Seq<u8>>::empty());
                assert(acc.deep_view() + Seq::<Seq<u8>>::empty() =~= acc.deep_view());
            }
            while i < count
                invariant
                    pos <= body@.len(),
                    0 <= i <= count,
                    take_u32(body@) == Some((count, body@.skip(p1 as int))),
                    acc.deep_view().len() == i,
                    take_blobs(body@.skip(p1 as int), count as nat) == (match take_blobs(
                        body@.skip(pos as int),
                        (count - i) as nat,
                    ) {
                        Some((bs, rest)) => Some((acc.deep_view() + bs, rest)),
                        None => None::<(Seq<Seq<u8>>, Seq<u8>)>,
                    }),
                decreases count - i,
            {
                let ghost acc_old = acc.deep_view();
                let ghost k = (count - i) as nat;
                match try_read_blob(body, pos) {
                    None => {
                        return Err(DecodeError::Malformed);
                    },
                    Some((b, p2)) => {
                        let ghost bv = b@;
                        proof {
                            assert(b.deep_view() =~= bv);
                        }
                        acc.push(b);
                        proof {
                            assert(acc.deep_view() =~= acc_old + seq![bv]);
                            match take_blobs(body@.skip(p2 as int), (k - 1) as nat) {
                                None => {},
                                Some((bs, rest)) => {
                                    assert(acc_old + (seq![bv] + bs) =~= (acc_old + seq![bv])
                                        + bs);
                                },
                            }
                        }
                        pos = p2;
                        i = i + 1;
                    },
                }
            }
            if pos == body.len() {
                proof {
                    assert(body@.skip(pos as int).len() == 0);
                    assert(acc.deep_view() + Seq::<Seq<u8>>::empty() =~= acc.deep_view());
                }
                Ok(acc)
            } else {
                proof {
                    assert(body@.skip(pos as int).len() != 0);
                }
                Err(DecodeError::Malformed)
            }
        },
    }
}

fn decode_single_blob(body: &[u8]) -> (r: Result<Vec<u8>, DecodeError>)
    ensures
        match r {
            Ok(v) => spec_decode_single_blob(body@) == Ok::<Seq<u8>, DecodeError>(v@),
            Err(e) => spec_decode_single_blob(body@) == Err::<Seq<u8>, DecodeError>(e),
        },
{
    proof {
        assert(body@.skip(0) =~= body@);
    }
    match try_read_blob(body, 0) {
        None => Err(DecodeError::Malformed),
        Some((b, p1)) => {
            if p1 == body.len() {
                proof {
                    assert(body@.skip(p1 as int).len() == 0);
                }
                Ok(b)
            } else {
                proof {
                    assert(body@.skip(p1 as int).len() != 0);
                }
                Err(DecodeError::Malformed)
            }
        },
    }
}

/// Decodes one frame payload into a message, consuming the input exactly.
pub fn decode(bytes: &[u8]) -> (r: Result<Message, DecodeError>)
    ensures
        result_matches(r, spec_decode(bytes@)),
{
    if bytes.len() == 0 {
        return Err(DecodeError::Malformed);
    }
    let tag = bytes[0];
    let body = read_bytes(bytes, 1, bytes.len() - 1);
    proof {
        assert(body@ =~= bytes@.skip(1));
    }
    if tag == TAG_HANDSHAKE {
        decode_handshake(body.as_slice())
    } else if tag == TAG_GET_BLOCKS {
        decode_get_blocks(body.as_slice())
    } else if tag == TAG_BLOCKS {
        match decode_blob_list(body.as_slice()) {
            Ok(blocks) => Ok(Message::Blocks { blocks }),
            Err(e) => Err(e),
        }
    } else if tag == TAG_GET_TRANSACTIONS {
        if body.len() == 0 {
            Ok(Message::GetTransactions)
        } else {
            Err(DecodeError::Malformed)
        }
    } else if tag == TAG_TRANSACTIONS {
        match decode_blob_list(body.as_slice()) {
            Ok(transactions) => Ok(Message::Transactions { transactions }),
            Err(e) => Err(e),
        }
    } else if tag == TAG_NEW_BLOCK {
        match decode_single_blob(body.as_slice()) {
            Ok(block) => Ok(Message::NewBlock { block }),
            Err(e) => Err(e),
        }
    } else if tag == TAG_NEW_TRANSACTION {
        match decode_single_blob(body.as_slice()) {
            Ok(transaction) => Ok(Message::NewTransaction { transaction }),
            Err(e) => Err(e),
        }
    } else if tag == TAG_PING {
        if body.len() == 0 {
            Ok(Message::Ping)
        } else {
            Err(DecodeError::Malformed)
        }
    } else if tag == TAG_PONG {
        if body.len() == 0 {
            Ok(Message::Pong)
        } else {
            Err(DecodeError::Malformed)
        }
    } else {
        Err(DecodeError::UnknownTag)
    }
}

} // verus!

