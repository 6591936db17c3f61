//! Content digests: a 32-byte identifier computed with SHA-256.

use vstd::prelude::*;

verus! {

/// The SHA-256 digest of a byte sequence; the digest is a function of the
/// input bytes alone.
pub uninterp spec fn sha256_of(data: Seq<u8>) -> Seq<u8>;

/// The all-zero digest value, used as the parent of the first block.
pub open spec fn zero_digest() -> Seq<u8> {
    Seq::new(32, |i: int| 0u8)
}

/// A 32-byte digest identifying ledger content.
#[derive(Debug, Clone, Copy, PartialEq, Eq, Hash)]
pub struct Hash([u8; 32]);

impl View for Hash {
    type V = Seq<u8>;

    closed spec fn view(&self) -> Seq<u8> {
        self.0@
    }
}

/// Relies on sha2::Sha256 through digest::Digest::digest: the 32-byte
/// digest of the input, a function of the input bytes alone.
#[verifier::external_body]
fn sha256(data: &[u8]) -> (r: [u8; 32])
    ensures
        r@ == sha256_of(data@),
{
    let out = <sha2::Sha256 as sha2::Digest>::digest(data);
    out.into()
}

impl Hash {
    pub fn from_bytes(bytes: [u8; 32]) -> (r: Self)
        ensures
            r@ == bytes@,
    {
        Hash(bytes)
    }

    pub fn as_bytes(&self) -> (r: &[u8; 32])
        ensures
            r@ == self@,
    {
        &self.0
    }

    pub fn as_slice(&self) -> (r: &[u8])
        ensures
            r@ == self@,
    {
        broadcast use vstd::array::group_array_axioms;

        self.0.as_slice()
    }

    /// The digest of the all-zero bytes, standing for "no parent".
    pub fn zero() -> (r: Self)
        ensures
            r@ == zero_digest(),
    {
        broadcast use vstd::array::group_array_axioms;

        let bytes = [0u8; 32];
        proof {
            assert(bytes@ =~= zero_digest());
        }
        Hash(bytes)
    }

    /// The SHA-256 digest of `data`.
    pub fn hash(data: &[u8]) -> (r: Self)
        ensures
            r@ == sha256_of(data@),
    {
        Hash(sha256(data))
    }

    pub fn is_zero(&self) -> (r: bool)
        ensures
            r == (self@ == zero_digest()),
    {
        broadcast use vstd::array::group_array_axioms;

        let mut i: usize = 0;
        while i < 32
            invariant
                0 <= i <= 32,
                forall|j: int| 0 <= j < i ==> self@[j] == 0u8,
            decreases 32 - i,
        {
            if self.0[i] != 0 {
                proof {
                    assert(self@[i as int] != zero_digest()[i as int]);
                }
                return false;
            }
            i += 1;
        }
        proof {
            assert(self@ =~= zero_digest());
        }
        true
    }
}

/// The lowercase hex character of a value below 16.
pub open spec fn hex_digit(n: u8) -> char
    recommends
        n < 16,
{
    if n < 10 {
        (('0' as u8) + n) as char
    } else {
        (('a' as u8) + (n - 10)) as char
    }
}

/// Two lowercase hex characters per byte, high nibble first.
pub open spec fn hex_chars(bytes: Seq<u8>) -> Seq<char> {
    Seq::new(
        2 * bytes.len(),
        |i: int|
            if i % 2 == 0 {
                hex_digit(bytes[i / 2] / 16)
            } else {
                hex_digit(bytes[i / 2] % 16)
            },
    )
}

/// The display form of a digest: `0x` then its bytes in lowercase hex.
pub open spec fn hex_display(bytes: Seq<u8>) -> Seq<char> {
    seq!['0', 'x'] + hex_chars(bytes)
}

/// Relies on String::from_utf8: bytes below 128 decode to exactly those
/// characters.
#[verifier::external_body]
fn ascii_to_string(bytes: Vec<u8>) -> (r: String)
    requires
        forall|i: int| 0 <= i < bytes@.len() ==> bytes@[i] < 128,
    ensures
        r@ == bytes@.map_values(|b: u8| b as char),
{
    match String::from_utf8(bytes) {
        Ok(s) => s,
        Err(_) => String::new(),
    }
}

impl Hash {
    /// The digest written as `0x` followed by 64 lowercase hex digits.
    pub fn to_hex(&self) -> (r: String)
        ensures
            r@ == hex_display(self@),
    {
        broadcast use vstd::array::group_array_axioms;

        let mut out: Vec<u8> = Vec::new();
        out.push('0' as u8);
        out.push('x' as u8);
        let mut i: usize = 0;
        while i < 32
            invariant
                0 <= i <= 32,
                out@.len() == 2 + 2 * i,
                out@[0] == '0' as u8,
                out@[1] == 'x' as u8,
                forall|j: int| 0 <= j < out@.len() ==> #[trigger] out@[j] < 128,
                forall|j: int|
                    0 <= j < 2 * i ==> #[trigger] out@[2 + j] as char == hex_chars(self@)[j],
            decreases 32 - i,
        {
            let b = self.0[i];
            let hi = b / 16;
            let lo = b % 16;
            let c_hi: u8 = if hi < 10 {
                ('0' as u8) + hi
            } else {
                ('a' as u8) + (hi - 10)
            };
            let c_lo: u8 = if lo < 10 {
                ('0' as u8) + lo
            } else {
                ('a' as u8) + (lo - 10)
            };
            out.push(c_hi);
            out.push(c_lo);
            proof {
                assert(c_hi as char == hex_digit(self@[i as int] / 16));
                assert(c_lo as char == hex_digit(self@[i as int] % 16));
                assert(hex_chars(self@)[2 * i as int] == hex_digit(self@[i as int] / 16));
                assert(hex_chars(self@)[2 * i as int + 1] == hex_digit(self@[i as int] % 16));
            }
            i += 1;
        }
        let s = ascii_to_string(out);
        proof {
            let hd = hex_display(self@);
            assert(s@.len() == 66 && hd.len() == 66);
            assert forall|k: int| 0 <= k < 66 implies s@[k] == hd[k] by {
                assert(s@[k] == out@[k] as char);
                if k == 0 {
                    assert(out@[0] == '0' as u8);
                    assert(('0' as u8) as char == '0');
                } else if k == 1 {
                    assert(out@[1] == 'x' as u8);
                    assert(('x' as u8) as char == 'x');
                } else {
                    assert(out@[2 + (k - 2)] as char == hex_chars(self@)[k - 2]);
                }
            }
            assert(s@ =~= hd);
        }
        s
    }
}

impl Default for Hash {
    /// The default digest is the all-zero digest.
    fn default() -> (r: Self)
        ensures
            r@ == zero_digest(),
    {
        Hash::zero()
    }
}

} // verus!
