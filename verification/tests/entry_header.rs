use bytes::BufMut;
use foyer_block::error::ErrorKind;
use foyer_block::serde::{Compression, EntryHeader, ENTRY_MAGIC};

fn build_entry_buf(key_len: usize, value_len: usize, compression: Compression) -> Vec<u8> {
    let total = EntryHeader::serialized_len() + key_len + value_len;
    let mut buf = vec![0u8; total];
    (&mut buf[0..4]).put_u32(key_len as u32);
    (&mut buf[4..8]).put_u32(value_len as u32);
    (&mut buf[8..16]).put_u64(0xdead_beef_cafe_babe);
    (&mut buf[16..24]).put_u64(0x1234_5678_9abc_def0);
    let v = ENTRY_MAGIC | compression.to_u8() as u32;
    (&mut buf[EntryHeader::MAGIC_FIELD_OFFSET..EntryHeader::MAGIC_FIELD_OFFSET + 4]).put_u32(v);
    // A deterministic, non-magic-bearing payload pattern.
    for (i, b) in buf[EntryHeader::serialized_len()..].iter_mut().enumerate() {
        *b = (i as u64).wrapping_mul(0x9e3779b9_7f4a7c15).wrapping_add(0x42) as u8;
    }
    let checksum = EntryHeader::checksum(&buf, key_len, value_len);
    (&mut buf[EntryHeader::CHECKSUM_FIELD_OFFSET
        ..EntryHeader::CHECKSUM_FIELD_OFFSET + EntryHeader::CHECKSUM_FIELD_LEN])
        .put_u64(checksum);
    buf
}

const ALL: [Compression; 3] = [Compression::Uncompressed, Compression::Zstd, Compression::Lz4];

#[test]
fn entry_header_checksum_roundtrips() {
    let key_len = 8usize;
    let value_len = 64usize;
    for compression in ALL {
        let buf = build_entry_buf(key_len, value_len, compression);
        let header = EntryHeader::read(&buf[..EntryHeader::serialized_len()]).unwrap();
        assert_eq!(header.key_len as usize, key_len);
        assert_eq!(header.value_len as usize, value_len);
        assert_eq!(header.compression, compression);
        // The block engine's verify path recomputes the checksum and it must match.
        assert_eq!(EntryHeader::checksum(&buf, key_len, value_len), header.checksum);
    }
}

#[test]
fn entry_header_checksum_detects_compression_flip_to_valid() {
    let key_len = 8usize;
    let value_len = 64usize;
    for compression in ALL {
        let buf = build_entry_buf(key_len, value_len, compression);
        let stored = EntryHeader::checksum(&buf, key_len, value_len);
        for other in ALL {
            if other == compression {
                continue;
            }
            let mut corrupted = buf.clone();
            corrupted[EntryHeader::MAGIC_FIELD_OFFSET + 3] = other.to_u8();
            // The flip evades the magic mask check ...
            let hdr = EntryHeader::read(&corrupted[..EntryHeader::serialized_len()]).unwrap();
            assert_eq!(hdr.compression, other);
            assert_eq!(hdr.checksum, stored);
            // ... but the checksum detects it.
            assert_ne!(EntryHeader::checksum(&corrupted, key_len, value_len), stored);
        }
    }
}

#[test]
fn entry_header_checksum_elides_checksum_field() {
    let key_len = 8usize;
    let value_len = 64usize;
    let buf = build_entry_buf(key_len, value_len, Compression::Uncompressed);
    let c0 = EntryHeader::checksum(&buf, key_len, value_len);
    let mut modified = buf.clone();
    for i in 0..EntryHeader::CHECKSUM_FIELD_LEN {
        let off = EntryHeader::CHECKSUM_FIELD_OFFSET + i;
        modified[off] = !modified[off];
    }
    let c1 = EntryHeader::checksum(&modified, key_len, value_len);
    assert_eq!(c0, c1, "the checksum field must be elided from its own hash");
}

#[test]
fn entry_header_checksum_detects_covered_corruption() {
    let key_len = 8usize;
    let value_len = 64usize;
    let buf = build_entry_buf(key_len, value_len, Compression::Uncompressed);
    let stored = EntryHeader::checksum(&buf, key_len, value_len);
    let covered = (0..EntryHeader::CHECKSUM_FIELD_OFFSET)
        .chain(EntryHeader::MAGIC_FIELD_OFFSET..EntryHeader::serialized_len())
        .chain(EntryHeader::serialized_len()..EntryHeader::serialized_len() + key_len + value_len);
    for off in covered {
        let mut corrupted = buf.clone();
        corrupted[off] ^= 0xff;
        assert_ne!(
            EntryHeader::checksum(&corrupted, key_len, value_len),
            stored,
            "corruption at covered byte {off} must be detected",
        );
    }
}

#[test]
fn written_header_lies_on_disk_in_big_endian() {
    let header = EntryHeader {
        key_len: 1,
        value_len: 2,
        hash: 3,
        sequence: 4,
        checksum: 5,
        compression: Compression::Lz4,
    };
    let mut buf: Vec<u8> = vec![0xaa];
    header.write(&mut buf);
    let mut expected: Vec<u8> = vec![0xaa];
    expected.extend_from_slice(&1u32.to_be_bytes());
    expected.extend_from_slice(&2u32.to_be_bytes());
    expected.extend_from_slice(&3u64.to_be_bytes());
    expected.extend_from_slice(&4u64.to_be_bytes());
    expected.extend_from_slice(&5u64.to_be_bytes());
    expected.extend_from_slice(&(ENTRY_MAGIC | Compression::Lz4.to_u8() as u32).to_be_bytes());
    assert_eq!(buf, expected);
    assert_eq!(buf.len(), 1 + EntryHeader::serialized_len());
}

#[test]
fn read_gives_back_what_was_written() {
    for compression in ALL {
        let header = EntryHeader {
            key_len: u32::MAX,
            value_len: 77,
            hash: 0x0102_0304_0506_0708,
            sequence: u64::MAX,
            checksum: 0x1122_3344_5566_7788,
            compression,
        };
        let mut buf: Vec<u8> = Vec::new();
        header.write(&mut buf);
        buf.push(1);
        let read = EntryHeader::read(&buf).unwrap();
        assert_eq!(read.key_len, u32::MAX);
        assert_eq!(read.value_len, 77);
        assert_eq!(read.hash, 0x0102_0304_0506_0708);
        assert_eq!(read.sequence, u64::MAX);
        assert_eq!(read.checksum, 0x1122_3344_5566_7788);
        assert_eq!(read.compression, compression);
    }
}

#[test]
fn wrong_magic_is_refused() {
    let mut buf = build_entry_buf(1, 1, Compression::Uncompressed);
    buf[EntryHeader::MAGIC_FIELD_OFFSET] ^= 1;
    let e = EntryHeader::read(&buf).unwrap_err();
    assert_eq!(e.kind(), ErrorKind::MagicMismatch);
}

#[test]
fn unknown_compression_is_refused() {
    let mut buf = build_entry_buf(1, 1, Compression::Uncompressed);
    buf[EntryHeader::MAGIC_FIELD_OFFSET + 3] = 0xee;
    let e = EntryHeader::read(&buf).unwrap_err();
    assert_eq!(e.kind(), ErrorKind::Parse);
    assert_eq!(Compression::from_u8(0xee).unwrap_err().kind(), ErrorKind::Parse);
    assert_eq!(Compression::from_u8(Compression::Zstd.to_u8()).unwrap(), Compression::Zstd);
}

#[test]
fn checksum_is_that_of_the_covered_bytes() {
    let buf = build_entry_buf(3, 5, Compression::Zstd);
    let mut covered: Vec<u8> = buf[..EntryHeader::CHECKSUM_FIELD_OFFSET].to_vec();
    covered.extend_from_slice(&buf[EntryHeader::MAGIC_FIELD_OFFSET..]);
    assert_eq!(
        EntryHeader::checksum(&buf, 3, 5),
        twox_hash::XxHash64::oneshot(0, &covered),
    );
}

#[test]
fn verification_finds_broken_entries() {
    let buf = build_entry_buf(3, 5, Compression::Lz4);
    let header = EntryHeader::read(&buf).unwrap();
    assert!(header.verify(&buf).is_ok());
    let mut longer = buf.clone();
    longer.push(1);
    assert!(header.verify(&longer).is_ok());
    let mut corrupted = buf.clone();
    corrupted[40] ^= 1;
    assert_eq!(header.verify(&corrupted).unwrap_err().kind(), ErrorKind::ChecksumMismatch);
    assert_eq!(header.verify(&buf[..43]).unwrap_err().kind(), ErrorKind::OutOfRange);
}
