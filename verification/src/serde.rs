//! The on-disk header of a cache entry.

use crate::error::Error;
use vstd::prelude::*;
use vstd::slice::slice_subrange;

verus! {

/// The upper three bytes of the last word of every entry header. The lowest byte is taken by the
/// compression algorithm.
pub const ENTRY_MAGIC: u32 = 0x97_03_27_00;

pub const ENTRY_MAGIC_MASK: u32 = 0xFF_FF_FF_00;

/// The seed of the entry checksum.
pub const CHECKSUM_SEED: u64 = 0;

/// The position of a write in the lifetime of the cache. It grows with every write.
pub type Sequence = u64;

/// The compression algorithm that an entry was written with.
#[derive(Clone, Copy, Debug, PartialEq, Eq, Structural)]
pub enum Compression {
    Uncompressed,
    Zstd,
    Lz4,
}

impl Compression {
    /// The byte that stands for the algorithm.
    pub open spec fn code(self) -> u8 {
        match self {
            Compression::Uncompressed => 0,
            Compression::Zstd => 1,
            Compression::Lz4 => 2,
        }
    }

    /// Get the byte that stands for the algorithm.
    pub fn to_u8(&self) -> (code: u8)
        ensures
            code == self.code(),
    {
        match self {
            Compression::Uncompressed => 0,
            Compression::Zstd => 1,
            Compression::Lz4 => 2,
        }
    }

    /// Get the algorithm that a byte stands for.
    pub fn from_u8(value: u8) -> (r: Result<Compression, Error>)
        ensures
            match r {
                Ok(compression) => compression.code() == value,
                Err(e) => {
                    &&& e == (Error::Parse { value })
                    &&& forall|compression: Compression| #[trigger] compression.code() != value
                },
            },
    {
        match value {
            0 => Ok(Compression::Uncompressed),
            1 => Ok(Compression::Zstd),
            2 => Ok(Compression::Lz4),
            _ => Err(Error::Parse { value }),
        }
    }
}

/// The four bytes of `v`, most significant first.
pub open spec fn be32(v: u32) -> Seq<u8> {
    seq![(v >> 24) as u8, (v >> 16) as u8, (v >> 8) as u8, v as u8]
}

/// The eight bytes of `v`, most significant first.
pub open spec fn be64(v: u64) -> Seq<u8> {
    seq![
        (v >> 56) as u8,
        (v >> 48) as u8,
        (v >> 40) as u8,
        (v >> 32) as u8,
        (v >> 24) as u8,
        (v >> 16) as u8,
        (v >> 8) as u8,
        v as u8,
    ]
}

/// The number that the first four bytes of `s` stand for, most significant first.
pub open spec fn u32_of(s: Seq<u8>) -> u32 {
    (s[0] as u32) << 24 | (s[1] as u32) << 16 | (s[2] as u32) << 8 | s[3] as u32
}

/// The number that the first eight bytes of `s` stand for, most significant first.
pub open spec fn u64_of(s: Seq<u8>) -> u64 {
    (s[0] as u64) << 56 | (s[1] as u64) << 48 | (s[2] as u64) << 40 | (s[3] as u64) << 32 | (
    s[4] as u64) << 24 | (s[5] as u64) << 16 | (s[6] as u64) << 8 | s[7] as u64
}

/// Reading four bytes gives back the number that they were written from.
pub proof fn u32_of_be32(v: u32)
    ensures
        u32_of(be32(v)) == v,
{
    assert(((v >> 24) as u8 as u32) << 24 | ((v >> 16) as u8 as u32) << 16 | ((v >> 8) as u8
        as u32) << 8 | (v as u8) as u32 == v) by (bit_vector);
}

/// Reading eight bytes gives back the number that they were written from.
pub proof fn u64_of_be64(v: u64)
    ensures
        u64_of(be64(v)) == v,
{
    assert(((v >> 56) as u8 as u64) << 56 | ((v >> 48) as u8 as u64) << 48 | ((v >> 40) as u8
        as u64) << 40 | ((v >> 32) as u8 as u64) << 32 | ((v >> 24) as u8 as u64) << 24 | ((v
        >> 16) as u8 as u64) << 16 | ((v >> 8) as u8 as u64) << 8 | (v as u8) as u64 == v)
        by (bit_vector);
}

/// Writing the number that four bytes stand for gives back the bytes.
pub proof fn be32_of_u32(s: Seq<u8>)
    requires
        s.len() >= 4,
    ensures
        be32(u32_of(s)) == s.take(4),
{
    let (a, b, c, d) = (s[0], s[1], s[2], s[3]);
    let v = u32_of(s);
    assert((v >> 24) as u8 == a && (v >> 16) as u8 == b && (v >> 8) as u8 == c && v as u8 == d)
        by (bit_vector)
        requires
            v == (a as u32) << 24 | (b as u32) << 16 | (c as u32) << 8 | d as u32,
    ;
    assert(be32(v) =~= s.take(4));
}

/// Writing the number that eight bytes stand for gives back the bytes.
pub proof fn be64_of_u64(s: Seq<u8>)
    requires
        s.len() >= 8,
    ensures
        be64(u64_of(s)) == s.take(8),
{
    let (a, b, c, d) = (s[0], s[1], s[2], s[3]);
    let (e, f, g, h) = (s[4], s[5], s[6], s[7]);
    let v = u64_of(s);
    assert((v >> 56) as u8 == a && (v >> 48) as u8 == b && (v >> 40) as u8 == c && (v >> 32) as u8
        == d && (v >> 24) as u8 == e && (v >> 16) as u8 == f && (v >> 8) as u8 == g && v as u8
        == h) by (bit_vector)
        requires
            v == (a as u64) << 56 | (b as u64) << 48 | (c as u64) << 40 | (d as u64) << 32 | (
            e as u64) << 24 | (f as u64) << 16 | (g as u64) << 8 | h as u64,
    ;
    assert(be64(v) =~= s.take(8));
}

/// [`bytes::Buf::get_u32`] on a byte slice: takes four bytes off the front and returns the
/// number they stand for, most significant byte first. It panics on fewer than four bytes.
#[verifier::external_body]
fn get_u32(buf: &mut &[u8]) -> (v: u32)
    requires
        old(buf)@.len() >= 4,
    ensures
        v == u32_of(old(buf)@),
        final(buf)@ == old(buf)@.skip(4),
{
    bytes::Buf::get_u32(buf)
}

/// [`bytes::Buf::get_u64`] on a byte slice: takes eight bytes off the front and returns the
/// number they stand for, most significant byte first. It panics on fewer than eight bytes.
#[verifier::external_body]
fn get_u64(buf: &mut &[u8]) -> (v: u64)
    requires
        old(buf)@.len() >= 8,
    ensures
        v == u64_of(old(buf)@),
        final(buf)@ == old(buf)@.skip(8),
{
    bytes::Buf::get_u64(buf)
}

/// [`bytes::BufMut::put_u32`] on a vector: appends the four bytes of `v`, most significant first.
#[verifier::external_body]
fn put_u32(buf: &mut Vec<u8>, v: u32)
    ensures
        final(buf)@ == old(buf)@ + be32(v),
{
    bytes::BufMut::put_u32(buf, v)
}

/// [`bytes::BufMut::put_u64`] on a vector: appends the eight bytes of `v`, most significant first.
#[verifier::external_body]
fn put_u64(buf: &mut Vec<u8>, v: u64)
    ensures
        final(buf)@ == old(buf)@ + be64(v),
{
    bytes::BufMut::put_u64(buf, v)
}

/// The XXH64 hash of `data` under `seed`.
pub uninterp spec fn xxh64(seed: u64, data: Seq<u8>) -> u64;

/// [`twox_hash::XxHash64::oneshot`]: the XXH64 hash of `data` under `seed`. Entries on disk carry
/// XXH64 checksums, as it is fast, has 64 bits, and is the same on every machine. What the hash is on
/// given bytes, and that different bytes mostly have different hashes, is left unsaid.
#[verifier::external_body]
fn xx_hash64(seed: u64, data: &[u8]) -> (hash: u64)
    ensures
        hash == xxh64(seed, data@),
{
    twox_hash::XxHash64::oneshot(seed, data)
}

/// The header in front of every entry on disk.
#[derive(Debug, PartialEq, Eq)]
pub struct EntryHeader {
    pub key_len: u32,
    pub value_len: u32,
    pub hash: u64,
    pub sequence: Sequence,
    pub checksum: u64,
    pub compression: Compression,
}

/// The bytes of an entry that its checksum covers: all of the `end` bytes but the checksum
/// itself.
pub open spec fn covered(entry: Seq<u8>, end: int) -> Seq<u8> {
    entry.subrange(0, EntryHeader::CHECKSUM_FIELD_OFFSET as int) + entry.subrange(
        EntryHeader::MAGIC_FIELD_OFFSET as int,
        end,
    )
}

impl EntryHeader {
    pub const CHECKSUM_FIELD_OFFSET: usize = 4 + 4 + 8 + 8;

    pub const CHECKSUM_FIELD_LEN: usize = 8;

    pub const MAGIC_FIELD_LEN: usize = 4;

    pub const MAGIC_FIELD_OFFSET: usize = 4 + 4 + 8 + 8 + 8;

    /// The last word of the header: the magic number with the compression algorithm in its
    /// lowest byte.
    pub open spec fn magic_word(compression: Compression) -> u32 {
        (ENTRY_MAGIC + compression.code()) as u32
    }

    /// The header as it lies on disk.
    pub open spec fn to_bytes(self) -> Seq<u8> {
        be32(self.key_len) + be32(self.value_len) + be64(self.hash) + be64(self.sequence) + be64(
            self.checksum,
        ) + be32(Self::magic_word(self.compression))
    }

    /// What reading the bytes `s` gives: the header they were written from, unless the last word
    /// has another magic number, or no compression algorithm in its lowest byte.
    pub open spec fn parses_to(s: Seq<u8>, r: Result<EntryHeader, Error>) -> bool {
        match r {
            Ok(header) => {
                &&& header.key_len == u32_of(s)
                &&& header.value_len == u32_of(s.skip(4))
                &&& header.hash == u64_of(s.skip(8))
                &&& header.sequence == u64_of(s.skip(16))
                &&& header.checksum == u64_of(s.skip(24))
                &&& Self::magic_word(header.compression) == u32_of(s.skip(32))
                &&& header.to_bytes() == s.take(36)
            },
            Err(e) => {
                let v = u32_of(s.skip(32));
                if v / 0x100 != ENTRY_MAGIC / 0x100 {
                    e == (Error::MagicMismatch {
                        expected: ENTRY_MAGIC,
                        get: (v - v % 0x100) as u32,
                    })
                } else {
                    &&& e == (Error::Parse { value: (v % 0x100) as u8 })
                    &&& forall|compression: Compression| #[trigger] compression.code() != v % 0x100
                }
            },
        }
    }

    /// All of the entry that starts with this header at the front of `buf` is there, and the stored
    /// checksum is that of its bytes.
    pub open spec fn intact(self, buf: Seq<u8>) -> bool {
        let end = 36 + self.key_len + self.value_len;
        &&& end <= buf.len()
        &&& self.checksum == xxh64(CHECKSUM_SEED, covered(buf, end))
    }

    /// `buf` starts with this header, and the entry behind it is intact.
    pub open spec fn leads(self, buf: Seq<u8>) -> bool {
        &&& Self::parses_to(buf.take(36), Ok(self))
        &&& self.intact(buf)
    }

    /// The length of a header on disk.
    pub fn serialized_len() -> (len: usize)
        ensures
            len == 36,
    {
        Self::CHECKSUM_FIELD_OFFSET + Self::CHECKSUM_FIELD_LEN + Self::MAGIC_FIELD_LEN
    }

    /// The checksum of an entry, whose header, key and value start at the front of `buf`.
    ///
    /// It covers every byte of the entry but the checksum field itself: the header fields, with
    /// the compression algorithm in the trailing magic word, as well as the key and the value.
    pub fn checksum(buf: &[u8], key_len: usize, value_len: usize) -> (checksum: u64)
        requires
            36 + key_len + value_len <= buf@.len(),
        ensures
            checksum == xxh64(CHECKSUM_SEED, covered(buf@, 36 + key_len + value_len)),
    {
        assert(buf@.len() == buf.len());
        let end: usize = Self::serialized_len() + key_len + value_len;
        let mut data: Vec<u8> = Vec::new();
        data.extend_from_slice(slice_subrange(buf, 0, Self::CHECKSUM_FIELD_OFFSET));
        data.extend_from_slice(slice_subrange(buf, Self::MAGIC_FIELD_OFFSET, end));
        assert(data@ =~= covered(buf@, 36 + key_len + value_len));
        xx_hash64(CHECKSUM_SEED, data.as_slice())
    }

    /// Check the entry that starts with this header at the front of `buf`: all of it is there, and
    /// the stored checksum is that of its bytes.
    pub fn verify(&self, buf: &[u8]) -> (r: Result<(), Error>)
        ensures
            ({
                let end = 36 + self.key_len + self.value_len;
                let checksum = xxh64(CHECKSUM_SEED, covered(buf@, end));
                &&& r is Ok <==> end <= buf@.len() && self.checksum == checksum
                &&& match r {
                    Ok(_) => self.intact(buf@),
                    Err(e) => if end <= buf@.len() {
                        &&& self.checksum != checksum
                        &&& e == Error::ChecksumMismatch {
                            expected: self.checksum,
                            get: checksum,
                        }
                    } else {
                        e == Error::OutOfRange {
                            len: buf@.len() as usize,
                            start: 36,
                            end: if end <= usize::MAX {
                                end as usize
                            } else {
                                usize::MAX
                            },
                        }
                    },
                }
            }),
    {
        let len: usize = buf.len();
        assert(buf@.len() == len);
        let head: usize = Self::serialized_len();
        let end: u64 = head as u64 + self.key_len as u64 + self.value_len as u64;
        if end > len as u64 {
            let end: usize = if end <= usize::MAX as u64 {
                end as usize
            } else {
                usize::MAX
            };
            return Err(Error::OutOfRange { len, start: head, end });
        }
        let get: u64 = Self::checksum(buf, self.key_len as usize, self.value_len as usize);
        if get != self.checksum {
            return Err(Error::ChecksumMismatch { expected: self.checksum, get });
        }
        Ok(())
    }

    /// Append the header to `buf`.
    pub fn write(&self, buf: &mut Vec<u8>)
        ensures
            final(buf)@ == old(buf)@ + self.to_bytes(),
    {
        put_u32(buf, self.key_len);
        put_u32(buf, self.value_len);
        put_u64(buf, self.hash);
        put_u64(buf, self.sequence);
        put_u64(buf, self.checksum);
        let code: u32 = self.compression.to_u8() as u32;
        let v: u32 = ENTRY_MAGIC | code;
        assert(v == 0x97032700u32 + code) by (bit_vector)
            requires
                v == 0x97032700u32 | code,
                code < 256,
        ;
        put_u32(buf, v);
        assert(buf@ =~= old(buf)@ + self.to_bytes());
    }

    /// Read a header from the front of `buf`.
    pub fn read(buf: &[u8]) -> (r: Result<EntryHeader, Error>)
        requires
            buf@.len() >= 36,
        ensures
            Self::parses_to(buf@, r),
    {
        let mut rest = buf;
        let key_len: u32 = get_u32(&mut rest);
        let value_len: u32 = get_u32(&mut rest);
        let hash: u64 = get_u64(&mut rest);
        let sequence: u64 = get_u64(&mut rest);
        let checksum: u64 = get_u64(&mut rest);
        let v: u32 = get_u32(&mut rest);
        let magic: u32 = v & ENTRY_MAGIC_MASK;
        assert(magic == v - v % 0x100) by (bit_vector)
            requires
                magic == v & 0xFF_FF_FF_00u32,
        ;
        if magic != ENTRY_MAGIC {
            return Err(Error::MagicMismatch { expected: ENTRY_MAGIC, get: magic });
        }
        let compression = match Compression::from_u8((v % 0x100) as u8) {
            Ok(compression) => compression,
            Err(e) => return Err(e),
        };
        let header = EntryHeader { key_len, value_len, hash, sequence, checksum, compression };
        proof {
            let s = buf@;
            assert(s.skip(4).skip(4) =~= s.skip(8));
            assert(s.skip(8).skip(8) =~= s.skip(16));
            assert(s.skip(16).skip(8) =~= s.skip(24));
            assert(s.skip(24).skip(8) =~= s.skip(32));
            be32_of_u32(s);
            be32_of_u32(s.skip(4));
            be64_of_u64(s.skip(8));
            be64_of_u64(s.skip(16));
            be64_of_u64(s.skip(24));
            be32_of_u32(s.skip(32));
            assert(header.to_bytes() =~= s.take(4) + s.skip(4).take(4) + s.skip(8).take(8) + s.skip(
                16,
            ).take(8) + s.skip(24).take(8) + s.skip(32).take(4));
            assert(header.to_bytes() =~= s.take(36));
        }
        Ok(header)
    }
}

/// Two headers with the same bytes are the same header.
pub proof fn to_bytes_injective(a: EntryHeader, b: EntryHeader)
    requires
        a.to_bytes() == b.to_bytes(),
    ensures
        a == b,
{
    let s = a.to_bytes();
    let t = b.to_bytes();
    to_bytes_fields(a);
    to_bytes_fields(b);
    assert(a.compression.code() == b.compression.code());
}

/// The fields of a header can be read off its bytes.
pub proof fn to_bytes_fields(header: EntryHeader)
    ensures
        header.to_bytes().len() == 36,
        u32_of(header.to_bytes()) == header.key_len,
        u32_of(header.to_bytes().skip(4)) == header.value_len,
        u64_of(header.to_bytes().skip(8)) == header.hash,
        u64_of(header.to_bytes().skip(16)) == header.sequence,
        u64_of(header.to_bytes().skip(24)) == header.checksum,
        u32_of(header.to_bytes().skip(32)) == EntryHeader::magic_word(header.compression),
{
    u32_of_be32(header.key_len);
    u32_of_be32(header.value_len);
    u64_of_be64(header.hash);
    u64_of_be64(header.sequence);
    u64_of_be64(header.checksum);
    u32_of_be32(EntryHeader::magic_word(header.compression));
}

/// Reading what was written gives back the header, whatever follows it.
pub proof fn read_after_write(header: EntryHeader, rest: Seq<u8>, r: Result<EntryHeader, Error>)
    requires
        EntryHeader::parses_to(header.to_bytes() + rest, r),
    ensures
        r == Ok::<EntryHeader, Error>(header),
{
    let s = header.to_bytes() + rest;
    to_bytes_fields(header);
    assert(s.take(36) =~= header.to_bytes());
    assert(s.skip(32).take(4) =~= header.to_bytes().skip(32));
    assert(u32_of(s.skip(32)) == u32_of(header.to_bytes().skip(32)));
    match r {
        Ok(h) => to_bytes_injective(h, header),
        Err(e) => {
            assert(header.compression.code() == u32_of(s.skip(32)) % 0x100);
        },
    }
}

/// Bytes that a header can be read from give that header, and nothing else.
pub proof fn read_is_determined(s: Seq<u8>, header: EntryHeader, r: Result<EntryHeader, Error>)
    requires
        s.len() >= 36,
        EntryHeader::parses_to(s, Ok(header)),
        EntryHeader::parses_to(s, r),
    ensures
        r == Ok::<EntryHeader, Error>(header),
{
    assert(s =~= header.to_bytes() + s.skip(36));
    read_after_write(header, s.skip(36), r);
}

/// An entry that is written with the checksum of its bytes is intact, whatever follows it.
pub proof fn written_entry_is_intact(header: EntryHeader, payload: Seq<u8>, rest: Seq<u8>)
    requires
        payload.len() == header.key_len + header.value_len,
        header.checksum == xxh64(
            CHECKSUM_SEED,
            covered(header.to_bytes() + payload, 36 + header.key_len + header.value_len),
        ),
    ensures
        header.leads(header.to_bytes() + payload + rest),
{
    let entry = header.to_bytes() + payload;
    let buf = entry + rest;
    let s = header.to_bytes();
    to_bytes_fields(header);
    assert(buf.take(36) =~= s);
    assert(s.take(36) =~= s);
    assert(covered(buf, 36 + header.key_len + header.value_len) =~= covered(entry, 36 + header.key_len + header.value_len));
}

/// An entry that is intact hashes to its checksum, however long its key and its value are: its bytes
/// are all there, and the checksum is that of all of them but the eight in which it is stored.
pub proof fn intact_entry_has_its_checksum(header: EntryHeader, buf: Seq<u8>)
    requires
        header.leads(buf),
    ensures
        36 + header.key_len + header.value_len <= buf.len(),
        header.to_bytes() == buf.take(36),
        header.checksum == xxh64(
            0,
            buf.subrange(0, 24) + buf.subrange(32, 36 + header.key_len + header.value_len),
        ),
{
    assert(buf.take(36).take(36) =~= buf.take(36));
}

/// An entry that does not hash to its checksum, or of which some bytes are missing, is not intact.
pub proof fn broken_entry_is_noticed(header: EntryHeader, buf: Seq<u8>)
    requires
        36 + header.key_len + header.value_len > buf.len() || header.checksum != xxh64(
            0,
            buf.subrange(0, 24) + buf.subrange(32, 36 + header.key_len + header.value_len),
        ),
    ensures
        !header.intact(buf),
        !header.leads(buf),
{
}

/// The checksum covers the bytes in front of it and those behind it, each of them once and in their
/// order.
pub proof fn covered_bytes_keep_their_order(entry: Seq<u8>, end: int, i: int)
    requires
        36 <= end <= entry.len(),
    ensures
        covered(entry, end).len() == end - 8,
        0 <= i < 24 ==> covered(entry, end)[i] == entry[i],
        24 <= i < end - 8 ==> covered(entry, end)[i] == entry[i + 8],
{
}

/// Numbers are written with the most significant byte first.
pub proof fn numbers_are_big_endian(v: u32, w: u64)
    ensures
        be32(v).len() == 4,
        be64(w).len() == 8,
        v == be32(v)[0] * 0x100_0000 + be32(v)[1] * 0x1_0000 + be32(v)[2] * 0x100 + be32(v)[3],
        w == be64(w)[0] * 0x100_0000_0000_0000 + be64(w)[1] * 0x1_0000_0000_0000 + be64(w)[2]
            * 0x100_0000_0000 + be64(w)[3] * 0x1_0000_0000 + be64(w)[4] * 0x100_0000 + be64(w)[5]
            * 0x1_0000 + be64(w)[6] * 0x100 + be64(w)[7],
{
    assert(v == ((v >> 24) as u8) * 0x100_0000 + ((v >> 16) as u8) * 0x1_0000 + ((v >> 8) as u8)
        * 0x100 + (v as u8)) by (bit_vector);
    assert(w == ((w >> 56) as u8) * 0x100_0000_0000_0000 + ((w >> 48) as u8) * 0x1_0000_0000_0000
        + ((w >> 40) as u8) * 0x100_0000_0000 + ((w >> 32) as u8) * 0x1_0000_0000 + ((w
        >> 24) as u8) * 0x100_0000 + ((w >> 16) as u8) * 0x1_0000 + ((w >> 8) as u8) * 0x100 + (
    w as u8)) by (bit_vector);
}

/// A header lies on disk as its lengths, its hash, its sequence and its checksum, followed by the
/// three magic bytes and the compression algorithm.
pub proof fn header_layout(header: EntryHeader)
    ensures
        header.to_bytes().len() == 36,
        header.to_bytes().subrange(0, 4) == be32(header.key_len),
        header.to_bytes().subrange(4, 8) == be32(header.value_len),
        header.to_bytes().subrange(8, 16) == be64(header.hash),
        header.to_bytes().subrange(16, 24) == be64(header.sequence),
        header.to_bytes().subrange(24, 32) == be64(header.checksum),
        header.to_bytes()[32] == 0x97,
        header.to_bytes()[33] == 0x03,
        header.to_bytes()[34] == 0x27,
        header.to_bytes()[35] == header.compression.code(),
{
    let s = header.to_bytes();
    assert(s.subrange(0, 4) =~= be32(header.key_len));
    assert(s.subrange(4, 8) =~= be32(header.value_len));
    assert(s.subrange(8, 16) =~= be64(header.hash));
    assert(s.subrange(16, 24) =~= be64(header.sequence));
    assert(s.subrange(24, 32) =~= be64(header.checksum));
    let v = EntryHeader::magic_word(header.compression);
    let c = header.compression.code() as u32;
    assert((v >> 24) as u8 == 0x97 && (v >> 16) as u8 == 0x03 && (v >> 8) as u8 == 0x27 && v as u8
        == c as u8) by (bit_vector)
        requires
            v == 0x97032700u32 + c,
            c < 3,
    ;
}

/// A header is read exactly from bytes that end with the magic bytes and one of the three compression
/// algorithms. Other magic bytes are one error, another algorithm is another one.
pub proof fn magic_decides(s: Seq<u8>, r: Result<EntryHeader, Error>)
    requires
        s.len() >= 36,
        EntryHeader::parses_to(s, r),
    ensures
        r is Ok <==> s[32] == 0x97 && s[33] == 0x03 && s[34] == 0x27 && s[35] <= 2,
        r matches Ok(header) ==> header.compression.code() == s[35],
        r matches Err(e) ==> if s[32] == 0x97 && s[33] == 0x03 && s[34] == 0x27 {
            e == (Error::Parse { value: s[35] })
        } else {
            e is MagicMismatch
        },
{
    let (a, b, c, d) = (s[32], s[33], s[34], s[35]);
    let v = u32_of(s.skip(32));
    assert((v / 0x100 == 0x970327 <==> a == 0x97 && b == 0x03 && c == 0x27) && v % 0x100 == d)
        by (bit_vector)
        requires
            v == (a as u32) << 24 | (b as u32) << 16 | (c as u32) << 8 | d as u32,
    ;
    match r {
        Ok(header) => {
            header_layout(header);
            assert(header.to_bytes()[32] == s.take(36)[32]);
            assert(header.to_bytes()[33] == s.take(36)[33]);
            assert(header.to_bytes()[34] == s.take(36)[34]);
            assert(header.to_bytes()[35] == s.take(36)[35]);
        },
        Err(e) => {
            if v / 0x100 == 0x970327 {
                assert(Compression::Uncompressed.code() != d);
                assert(Compression::Zstd.code() != d);
                assert(Compression::Lz4.code() != d);
            }
        },
    }
}

/// The compression algorithms have codes of their own.
pub proof fn codes_tell_algorithms_apart(a: Compression, b: Compression)
    ensures
        a.code() == b.code() ==> a == b,
        Compression::Uncompressed.code() == 0,
        Compression::Zstd.code() == 1,
        Compression::Lz4.code() == 2,
{
}

/// The checksum does not depend on the checksum field: entries that differ there alone are
/// covered by the same bytes.
pub proof fn checksum_elides_its_own_field(a: Seq<u8>, b: Seq<u8>, end: int)
    requires
        36 <= end <= a.len(),
        end <= b.len(),
        forall|i: int|
            0 <= i < end && !(EntryHeader::CHECKSUM_FIELD_OFFSET <= i
                < EntryHeader::MAGIC_FIELD_OFFSET) ==> a[i] == b[i],
    ensures
        covered(a, end) == covered(b, end),
        xxh64(CHECKSUM_SEED, covered(a, end)) == xxh64(CHECKSUM_SEED, covered(b, end)),
{
    assert(covered(a, end) =~= covered(b, end));
}

/// Every other byte is covered: entries that differ in one of them are hashed from different
/// bytes.
pub proof fn checksum_covers_the_rest(a: Seq<u8>, b: Seq<u8>, end: int, i: int)
    requires
        36 <= end <= a.len(),
        end <= b.len(),
        0 <= i < end,
        !(EntryHeader::CHECKSUM_FIELD_OFFSET <= i < EntryHeader::MAGIC_FIELD_OFFSET),
        a[i] != b[i],
    ensures
        covered(a, end) != covered(b, end),
{
    let at = if i < EntryHeader::CHECKSUM_FIELD_OFFSET {
        i
    } else {
        i - EntryHeader::CHECKSUM_FIELD_LEN
    };
    assert(covered(a, end)[at] == a[i]);
    assert(covered(b, end)[at] == b[i]);
}

} // verus!
