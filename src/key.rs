//! How user keys become byte strings: text with a terminator that no UTF-8 text holds,
//! and fixed-width integers in big-endian order (signed ones with the sign bit flipped),
//! so that byte order is the keys' order.
use crate::header::copy_bytes;
use vstd::string::StringSliceAdditionalSpecFns;
use vstd::prelude::*;

verus! {

/// A byte that cannot start a UTF-8 scalar (its top bits are `10`), appended to every text
/// key so that no text key is a proper prefix of another.
pub const INVALID_STR_BYTE: u8 = 0b1011_1111;

/// A key whose encoding is a proper prefix of a stored key's, or has a stored key's
/// encoding as a proper prefix; such a key cannot be stored.
#[derive(Clone, Copy, Debug, PartialEq, Eq, Structural)]
pub struct KeyPrefixError;

/// A key of the tree: a value with a byte encoding.
pub trait Key {
    /// The bytes that stand for the key in the tree.
    spec fn key_bytes(&self) -> Seq<u8>;

    /// Encodes the key.
    fn as_key_bytes(&self) -> (r: Vec<u8>)
        ensures
            r@ == self.key_bytes(),
    ;
}

impl Key for str {
    open spec fn key_bytes(&self) -> Seq<u8> {
        self.spec_bytes().push(INVALID_STR_BYTE)
    }

    fn as_key_bytes(&self) -> (r: Vec<u8>) {
        let b = self.as_bytes();
        let mut v = copy_bytes(b, 0, b.len());
        proof {
            assert(b@.subrange(0, b@.len() as int) =~= b@);
        }
        v.push(INVALID_STR_BYTE);
        v
    }
}

/// A byte string keyed with a terminator byte `POSTFIX` appended, which the strings never
/// hold, so that no key is a proper prefix of another.
pub struct PostfixedBytes<const POSTFIX: u8> {
    bytes: Vec<u8>,
}

impl<const POSTFIX: u8> PostfixedBytes<POSTFIX> {
    pub closed spec fn spec_bytes(&self) -> Seq<u8> {
        self.bytes@
    }

    /// Wraps a copy of `b`.
    pub fn from_bytes(b: &[u8]) -> (r: Self)
        ensures
            r.spec_bytes() == b@,
    {
        let bytes = copy_bytes(b, 0, b.len());
        proof {
            assert(b@.subrange(0, b@.len() as int) =~= b@);
        }
        PostfixedBytes { bytes }
    }

    /// The wrapped bytes, without the terminator.
    pub fn as_bytes(&self) -> (r: &[u8])
        ensures
            r@ == self.spec_bytes(),
    {
        self.bytes.as_slice()
    }
}

impl<const POSTFIX: u8> Key for PostfixedBytes<POSTFIX> {
    open spec fn key_bytes(&self) -> Seq<u8> {
        self.spec_bytes().push(POSTFIX)
    }

    fn as_key_bytes(&self) -> (r: Vec<u8>) {
        let mut v = copy_bytes(self.bytes.as_slice(), 0, self.bytes.len());
        proof {
            assert(self.bytes@.subrange(0, self.bytes@.len() as int) =~= self.bytes@);
        }
        v.push(POSTFIX);
        v
    }
}

/// The `n` low base-256 digits of `v`, most significant first.
pub open spec fn be_bytes(v: nat, n: nat) -> Seq<u8>
    decreases n,
{
    if n == 0 {
        Seq::empty()
    } else {
        be_bytes(v / 256, (n - 1) as nat).push((v % 256) as u8)
    }
}

/// The `n` low base-256 digits of `v`, most significant first.
pub fn be_encode(v: u128, n: usize) -> (r: Vec<u8>)
    ensures
        r@ == be_bytes(v as nat, n as nat),
    decreases n,
{
    if n == 0 {
        Vec::new()
    } else {
        let mut r = be_encode(v / 256, n - 1);
        r.push((v % 256) as u8);
        r
    }
}

impl Key for u8 {
    open spec fn key_bytes(&self) -> Seq<u8> {
        be_bytes(*self as nat, 1)
    }

    fn as_key_bytes(&self) -> (r: Vec<u8>) {
        be_encode(*self as u128, 1)
    }
}

impl Key for u16 {
    open spec fn key_bytes(&self) -> Seq<u8> {
        be_bytes(*self as nat, 2)
    }

    fn as_key_bytes(&self) -> (r: Vec<u8>) {
        be_encode(*self as u128, 2)
    }
}

impl Key for u32 {
    open spec fn key_bytes(&self) -> Seq<u8> {
        be_bytes(*self as nat, 4)
    }

    fn as_key_bytes(&self) -> (r: Vec<u8>) {
        be_encode(*self as u128, 4)
    }
}

impl Key for u64 {
    open spec fn key_bytes(&self) -> Seq<u8> {
        be_bytes(*self as nat, 8)
    }

    fn as_key_bytes(&self) -> (r: Vec<u8>) {
        be_encode(*self as u128, 8)
    }
}

impl Key for u128 {
    open spec fn key_bytes(&self) -> Seq<u8> {
        be_bytes(*self as nat, 16)
    }

    fn as_key_bytes(&self) -> (r: Vec<u8>) {
        be_encode(*self, 16)
    }
}

impl Key for usize {
    open spec fn key_bytes(&self) -> Seq<u8> {
        be_bytes(*self as nat, 8)
    }

    fn as_key_bytes(&self) -> (r: Vec<u8>) {
        be_encode(*self as u128, 8)
    }
}

impl Key for i8 {
    open spec fn key_bytes(&self) -> Seq<u8> {
        be_bytes((*self as int + 0x80) as nat, 1)
    }

    fn as_key_bytes(&self) -> (r: Vec<u8>) {
        be_encode((*self as i128 + 0x80) as u128, 1)
    }
}

impl Key for i16 {
    open spec fn key_bytes(&self) -> Seq<u8> {
        be_bytes((*self as int + 0x8000) as nat, 2)
    }

    fn as_key_bytes(&self) -> (r: Vec<u8>) {
        be_encode((*self as i128 + 0x8000) as u128, 2)
    }
}

impl Key for i32 {
    open spec fn key_bytes(&self) -> Seq<u8> {
        be_bytes((*self as int + 0x8000_0000) as nat, 4)
    }

    fn as_key_bytes(&self) -> (r: Vec<u8>) {
        be_encode((*self as i128 + 0x8000_0000) as u128, 4)
    }
}

impl Key for i64 {
    open spec fn key_bytes(&self) -> Seq<u8> {
        be_bytes((*self as int + 0x8000_0000_0000_0000) as nat, 8)
    }

    fn as_key_bytes(&self) -> (r: Vec<u8>) {
        be_encode((*self as i128 + 0x8000_0000_0000_0000) as u128, 8)
    }
}

pub proof fn lemma_be_bytes_len(v: nat, n: nat)
    ensures
        be_bytes(v, n).len() == n,
    decreases n,
{
    if n > 0 {
        lemma_be_bytes_len(v / 256, (n - 1) as nat);
    }
}

} // verus!
