//! Byte-level encodings: fixed-width little-endian integers, variable-length integers and
//! checksums.
pub mod digits;

use byteorder::{LittleEndian, ReadBytesExt, WriteBytesExt};
use integer_encoding::{VarInt, VarIntWriter};
use vstd::prelude::*;

verus! {

/// `256` to the power of `len`.
pub open spec fn pow256(len: nat) -> nat
    decreases len,
{
    if len == 0 {
        1
    } else {
        256 * pow256((len - 1) as nat)
    }
}

/// The `len` least significant bytes of `n`, least significant byte first.
pub open spec fn le_bytes(n: nat, len: nat) -> Seq<u8>
    decreases len,
{
    if len == 0 {
        Seq::empty()
    } else {
        seq![(n % 256) as u8] + le_bytes(n / 256, (len - 1) as nat)
    }
}

/// The number whose bytes, least significant byte first, are `s`.
pub open spec fn le_value(s: Seq<u8>) -> nat
    decreases s.len(),
{
    if s.len() == 0 {
        0
    } else {
        s[0] as nat + 256 * le_value(s.drop_first())
    }
}

pub proof fn lemma_le_bytes_len(n: nat, len: nat)
    ensures
        le_bytes(n, len).len() == len,
    decreases len,
{
    if len > 0 {
        lemma_le_bytes_len(n / 256, (len - 1) as nat);
    }
}

pub proof fn lemma_le_value_bound(s: Seq<u8>)
    ensures
        le_value(s) < pow256(s.len()),
    decreases s.len(),
{
    if s.len() > 0 {
        lemma_le_value_bound(s.drop_first());
    }
}

pub proof fn lemma_pow256_values()
    ensures
        pow256(1) == 0x100,
        pow256(2) == 0x1_0000,
        pow256(4) == 0x1_0000_0000,
        pow256(8) == 0x1_0000_0000_0000_0000,
{
    reveal_with_fuel(pow256, 9);
}

/// Decoding undoes encoding: the bytes of a number that fits in `len` bytes spell that number.
pub proof fn lemma_le_value_of_le_bytes(n: nat, len: nat)
    requires
        n < pow256(len),
    ensures
        le_value(le_bytes(n, len)) == n,
        le_bytes(n, len).len() == len,
    decreases len,
{
    if len > 0 {
        let rest = le_bytes(n / 256, (len - 1) as nat);
        assert(n / 256 < pow256((len - 1) as nat));
        lemma_le_value_of_le_bytes(n / 256, (len - 1) as nat);
        assert(le_bytes(n, len).drop_first() =~= rest);
    }
}

/// Encoding undoes decoding: a byte string is the encoding of its own value.
pub proof fn lemma_le_bytes_of_le_value(s: Seq<u8>)
    ensures
        le_bytes(le_value(s), s.len()) == s,
    decreases s.len(),
{
    if s.len() > 0 {
        let t = s.drop_first();
        lemma_le_bytes_of_le_value(t);
        let v = le_value(t);
        assert((s[0] as nat + 256 * v) % 256 == s[0] as nat);
        assert((s[0] as nat + 256 * v) / 256 == v);
        assert(seq![s[0]] + t =~= s);
    } else {
        assert(s =~= Seq::empty());
    }
}

/// Reads a 16-bit little-endian integer with `ReadBytesExt::read_u16`, which takes the first two
/// bytes of the slice, least significant byte first.
#[verifier::external_body]
pub(crate) fn read_u16_le(buf: &[u8]) -> (r: u16)
    requires
        buf@.len() >= 2,
    ensures
        r as nat == le_value(buf@.take(2)),
{
    let mut cursor = buf;
    cursor.read_u16::<LittleEndian>().unwrap()
}

/// Reads a 32-bit little-endian integer with `ReadBytesExt::read_u32`, which takes the first four
/// bytes of the slice, least significant byte first.
#[verifier::external_body]
pub(crate) fn read_u32_le(buf: &[u8]) -> (r: u32)
    requires
        buf@.len() >= 4,
    ensures
        r as nat == le_value(buf@.take(4)),
{
    let mut cursor = buf;
    cursor.read_u32::<LittleEndian>().unwrap()
}

/// Reads a 64-bit little-endian integer with `ReadBytesExt::read_u64`, which takes the first
/// eight bytes of the slice, least significant byte first.
#[verifier::external_body]
pub(crate) fn read_u64_le(buf: &[u8]) -> (r: u64)
    requires
        buf@.len() >= 8,
    ensures
        r as nat == le_value(buf@.take(8)),
{
    let mut cursor = buf;
    cursor.read_u64::<LittleEndian>().unwrap()
}

/// Appends a 16-bit integer with `WriteBytesExt::write_u16`, least significant byte first.
#[verifier::external_body]
pub(crate) fn write_u16_le(buf: &mut Vec<u8>, n: u16)
    ensures
        final(buf)@ == old(buf)@ + le_bytes(n as nat, 2),
{
    buf.write_u16::<LittleEndian>(n).unwrap();
}

/// Appends a 32-bit integer with `WriteBytesExt::write_u32`, least significant byte first.
#[verifier::external_body]
pub(crate) fn write_u32_le(buf: &mut Vec<u8>, n: u32)
    ensures
        final(buf)@ == old(buf)@ + le_bytes(n as nat, 4),
{
    buf.write_u32::<LittleEndian>(n).unwrap();
}

/// Appends a 64-bit integer with `WriteBytesExt::write_u64`, least significant byte first.
#[verifier::external_body]
pub(crate) fn write_u64_le(buf: &mut Vec<u8>, n: u64)
    ensures
        final(buf)@ == old(buf)@ + le_bytes(n as nat, 8),
{
    buf.write_u64::<LittleEndian>(n).unwrap();
}

/// The variable-length form of `n`: seven bits a byte, least significant group first, with the
/// top bit set in every byte but the last.
pub open spec fn varint(n: nat) -> Seq<u8>
    decreases n,
{
    if n < 128 {
        seq![n as u8]
    } else {
        seq![(128 + n % 128) as u8] + varint(n / 128)
    }
}

/// The variable-length integer that `s` starts with and the number of bytes that it takes, or
/// `None` if no byte of `s` has its top bit clear.
pub open spec fn read_varint(s: Seq<u8>) -> Option<(nat, nat)>
    decreases s.len(),
{
    if s.len() == 0 {
        None
    } else if s[0] < 128 {
        Some((s[0] as nat, 1))
    } else {
        match read_varint(s.drop_first()) {
            Some((v, len)) => Some(((s[0] - 128) as nat + 128 * v, len + 1)),
            None => None,
        }
    }
}

/// Decoding undoes encoding, whatever follows the encoded number.
pub proof fn lemma_read_varint_of_varint(n: nat, rest: Seq<u8>)
    ensures
        read_varint(varint(n) + rest) == Some((n, varint(n).len())),
        varint(n).len() >= 1,
    decreases n,
{
    let s = varint(n) + rest;
    if n >= 128 {
        lemma_read_varint_of_varint(n / 128, rest);
        assert(s.drop_first() =~= varint(n / 128) + rest);
    }
}

/// What a number decodes to depends on its own bytes only.
pub proof fn lemma_read_varint_prefix(s: Seq<u8>, t: Seq<u8>)
    requires
        read_varint(s) is Some,
    ensures
        read_varint(s + t) == read_varint(s),
        1 <= read_varint(s).unwrap().1 <= s.len(),
    decreases s.len(),
{
    if s[0] >= 128 {
        lemma_read_varint_prefix(s.drop_first(), t);
        assert((s + t).drop_first() =~= s.drop_first() + t);
    }
}

spec fn pow128(k: nat) -> nat
    decreases k,
{
    if k == 0 {
        1
    } else {
        128 * pow128((k - 1) as nat)
    }
}

proof fn lemma_varint_len_bound(n: nat, k: nat)
    requires
        n < pow128(k),
        k >= 1,
    ensures
        varint(n).len() <= k,
    decreases k,
{
    if n >= 128 {
        if k == 1 {
            reveal_with_fuel(pow128, 2);
        } else {
            assert(n / 128 < pow128((k - 1) as nat));
            lemma_varint_len_bound(n / 128, (k - 1) as nat);
        }
    }
}

/// A 64-bit number takes at most ten bytes.
pub proof fn lemma_varint_len_u64(n: nat)
    requires
        n <= u64::MAX,
    ensures
        1 <= varint(n).len() <= 10,
{
    reveal_with_fuel(pow128, 11);
    lemma_varint_len_bound(n, 10);
    lemma_read_varint_of_varint(n, Seq::empty());
}

/// Whether `s` starts with a variable-length integer that fits in a machine word and takes no
/// more bytes than the longest such number needs.
pub open spec fn has_varint(s: Seq<u8>) -> bool {
    &&& read_varint(s) is Some
    &&& read_varint(s).unwrap().0 <= usize::MAX
    &&& read_varint(s).unwrap().1 <= 10
}

/// Appends `n` with `VarIntWriter::write_varint`, in its shortest variable-length form.
#[verifier::external_body]
pub(crate) fn write_varint(buf: &mut Vec<u8>, n: usize)
    ensures
        final(buf)@ == old(buf)@ + varint(n as nat),
{
    buf.write_varint(n).unwrap();
}

/// Decodes the number that `buf` starts with, by `VarInt::decode_var`: the value of its seven-bit
/// groups, least significant first, up to the first byte whose top bit is clear, and the number
/// of bytes read.
#[verifier::external_body]
pub(crate) fn decode_varint(buf: &[u8]) -> (r: (usize, usize))
    requires
        has_varint(buf@),
    ensures
        Some((r.0 as nat, r.1 as nat)) == read_varint(buf@),
{
    usize::decode_var(buf).unwrap()
}

/// Encodes two numbers with `bincode::serialize`, which writes each as eight little-endian bytes.
#[verifier::external_body]
pub(crate) fn encode_u64_pair(a: u64, b: u64) -> (r: Vec<u8>)
    ensures
        r@ == le_bytes(a as nat, 8) + le_bytes(b as nat, 8),
{
    bincode::serialize(&(a, b)).unwrap()
}

/// Decodes two numbers with `bincode::deserialize`, which reads each from eight little-endian
/// bytes and leaves bytes after them unread.
#[verifier::external_body]
pub(crate) fn decode_u64_pair(buf: &[u8]) -> (r: (u64, u64))
    requires
        buf@.len() >= 16,
    ensures
        r.0 == le_value(buf@.take(8)),
        r.1 == le_value(buf@.subrange(8, 16)),
{
    bincode::deserialize(buf).unwrap()
}

/// The CRC-32 checksum of a byte string.
pub uninterp spec fn crc32(data: Seq<u8>) -> u32;

/// Computes the checksum with `crc32fast::Hasher`, fed the whole buffer at once.
#[verifier::external_body]
pub(crate) fn checksum(buf: &[u8]) -> (r: u32)
    ensures
        r == crc32(buf@),
{
    let mut hasher = crc32fast::Hasher::new();
    hasher.update(buf);
    hasher.finalize()
}

/// The number in the first `len` bytes, and the bytes after them.
pub open spec fn take_number(s: Seq<u8>, len: nat) -> Option<(nat, Seq<u8>)> {
    if s.len() < len {
        None
    } else {
        Some((le_value(s.take(len as int)), s.skip(len as int)))
    }
}

/// A byte string after its length.
pub open spec fn bytes_encoding(b: Seq<u8>) -> Seq<u8> {
    le_bytes(b.len(), 8) + b
}

/// The byte string that stands after its length, and the bytes after it.
pub open spec fn take_bytes(s: Seq<u8>) -> Option<(Seq<u8>, Seq<u8>)> {
    match take_number(s, 8) {
        None => None,
        Some((len, rest)) => if rest.len() < len {
            None
        } else {
            Some((rest.take(len as int), rest.skip(len as int)))
        },
    }
}

pub proof fn lemma_take_number(n: nat, len: nat, rest: Seq<u8>)
    requires
        n < pow256(len),
    ensures
        take_number(le_bytes(n, len) + rest, len) == Some((n, rest)),
{
    let b = le_bytes(n, len);
    lemma_le_bytes_len(n, len);
    lemma_le_value_of_le_bytes(n, len);
    assert((b + rest).take(len as int) =~= b);
    assert((b + rest).skip(len as int) =~= rest);
}

pub proof fn lemma_take_bytes(b: Seq<u8>, rest: Seq<u8>)
    requires
        b.len() <= u64::MAX,
    ensures
        take_bytes(bytes_encoding(b) + rest) == Some((b, rest)),
{
    lemma_pow256_values();
    lemma_take_number(b.len(), 8, b + rest);
    assert(bytes_encoding(b) + rest =~= le_bytes(b.len(), 8) + (b + rest));
    assert((b + rest).take(b.len() as int) =~= b);
    assert((b + rest).skip(b.len() as int) =~= rest);
}

/// Appends a byte string after its length.
pub fn write_bytes(buf: &mut Vec<u8>, b: &[u8])
    ensures
        final(buf)@ == old(buf)@ + bytes_encoding(b@),
        b@.len() <= u64::MAX,
{
    write_u64_le(buf, b.len() as u64);
    buf.extend_from_slice(b);
    proof {
        assert(buf@ =~= old(buf)@ + bytes_encoding(b@));
    }
}

/// Reads a byte string from front to back.
pub struct ByteReader<'a> {
    buf: &'a [u8],
    pos: usize,
}

impl<'a> ByteReader<'a> {
    /// The bytes that were not read yet.
    pub closed spec fn rest(self) -> Seq<u8> {
        self.buf@.skip(self.pos as int)
    }

    pub closed spec fn wf(self) -> bool {
        self.pos <= self.buf@.len()
    }

    pub fn new(buf: &'a [u8]) -> (r: Self)
        ensures
            r.wf(),
            r.rest() == buf@,
    {
        let r = Self { buf, pos: 0 };
        proof {
            assert(r.rest() =~= buf@);
        }
        r
    }

    /// Reads an eight-byte number.
    pub fn u64(&mut self) -> (r: Option<u64>)
        requires
            old(self).wf(),
        ensures
            final(self).wf(),
            match r {
                Some(n) => take_number(old(self).rest(), 8) == Some((n as nat, final(self).rest())),
                None => take_number(old(self).rest(), 8) is None,
            },
    {
        let size: usize = self.buf.len();
        if size - self.pos < 8 {
            return None;
        }
        let field = vstd::slice::slice_subrange(self.buf, self.pos, size);
        proof {
            assert(field@ =~= self.rest());
        }
        let n = read_u64_le(field);
        self.pos = self.pos + 8;
        proof {
            assert(self.rest() =~= old(self).rest().skip(8));
        }
        Some(n)
    }

    /// Reads a four-byte number.
    pub fn u32(&mut self) -> (r: Option<u32>)
        requires
            old(self).wf(),
        ensures
            final(self).wf(),
            match r {
                Some(n) => take_number(old(self).rest(), 4) == Some((n as nat, final(self).rest())),
                None => take_number(old(self).rest(), 4) is None,
            },
    {
        let size: usize = self.buf.len();
        if size - self.pos < 4 {
            return None;
        }
        let field = vstd::slice::slice_subrange(self.buf, self.pos, size);
        proof {
            assert(field@ =~= self.rest());
        }
        let n = read_u32_le(field);
        self.pos = self.pos + 4;
        proof {
            assert(self.rest() =~= old(self).rest().skip(4));
        }
        Some(n)
    }

    /// Reads a byte.
    pub fn byte(&mut self) -> (r: Option<u8>)
        requires
            old(self).wf(),
        ensures
            final(self).wf(),
            match r {
                Some(b) => {
                    &&& old(self).rest().len() > 0
                    &&& b == old(self).rest()[0]
                    &&& final(self).rest() == old(self).rest().drop_first()
                },
                None => old(self).rest().len() == 0,
            },
    {
        let size: usize = self.buf.len();
        if self.pos >= size {
            return None;
        }
        let b = self.buf[self.pos];
        self.pos = self.pos + 1;
        proof {
            assert(self.rest() =~= old(self).rest().drop_first());
        }
        Some(b)
    }

    /// Reads a byte string after its length.
    pub fn bytes(&mut self) -> (r: Option<Vec<u8>>)
        requires
            old(self).wf(),
        ensures
            final(self).wf(),
            match r {
                Some(b) => take_bytes(old(self).rest()) == Some((b@, final(self).rest())),
                None => take_bytes(old(self).rest()) is None,
            },
    {
        let len: u64 = match self.u64() {
            Some(len) => len,
            None => {
                return None;
            },
        };
        let size: usize = self.buf.len();
        if ((size - self.pos) as u64) < len {
            return None;
        }
        let end: usize = self.pos + len as usize;
        let ghost rest = self.rest();
        let part = vstd::slice::slice_subrange(self.buf, self.pos, end);
        let b = vstd::slice::slice_to_vec(part);
        self.pos = end;
        proof {
            assert(b@ =~= rest.take(len as int));
            assert(self.rest() =~= rest.skip(len as int));
        }
        Some(b)
    }
}

} // verus!
