use thl_tools::cursor::Cursor;
use thl_tools::errors::CodecError;
use thl_tools::mbe::{build_mbe, parse_mbe, FieldKind, FieldVal, MbeFile};
use thl_tools::mvgl::{
    merge_archives, pack_archive, rename_for_extract, rename_for_pack, unpack_archive,
    unpack_packed_archive, Entry,
};

fn entry(name: &[u8], data: &[u8]) -> Entry {
    Entry { name: name.to_vec(), data: data.to_vec() }
}

#[test]
fn cursor_tracks_offsets() {
    let data: Vec<u8> = vec![1, 0, 0, 0, 7];
    let mut cur = Cursor::new();
    assert_eq!(cur.offset(), 0);
    let v = cur.read_u32(&data).unwrap();
    assert_eq!(v, 1);
    assert_eq!(cur.offset(), 4);
    let b = cur.read_u8(&data).unwrap();
    assert_eq!(b, 7);
    assert_eq!(cur.offset(), 5);
    // A read past the end fails without corrupting the counter.
    let r = cur.read_u8(&data);
    assert_eq!(r, Err(CodecError::UnexpectedEof));
    assert_eq!(cur.offset(), 5);
}

#[test]
fn cursor_reads_u64_and_slices() {
    let data: Vec<u8> = vec![0x88, 0x77, 0x66, 0x55, 0x44, 0x33, 0x22, 0x11, 9, 9];
    let mut cur = Cursor::new();
    let v = cur.read_u64(&data).unwrap();
    assert_eq!(v, 0x1122334455667788);
    let rest = cur.read_bytes(&data, 2).unwrap();
    assert_eq!(rest, vec![9, 9]);
    assert!(cur.read_bytes(&data, 1).is_err());
}

#[test]
fn archive_roundtrip() {
    let entries = vec![
        entry(b"first.bin", b"hello"),
        entry(b"second.bin", b""),
        entry(b"third.bin", &[0, 1, 2, 3, 255]),
    ];
    let bytes = pack_archive(&entries);
    let back = unpack_archive(&bytes).unwrap();
    assert_eq!(back.len(), 3);
    for (a, b) in entries.iter().zip(back.iter()) {
        assert_eq!(a.name, b.name);
        assert_eq!(a.data, b.data);
    }
    // Packing what came back reproduces the stream byte-for-byte.
    let again = pack_archive(&back);
    assert_eq!(again, bytes);
}

#[test]
fn archive_packed_decode_is_exact() {
    let entries = vec![entry(b"one.mbe", b"abc"), entry(b"two.img", b"")];
    let back = unpack_packed_archive(&entries).unwrap();
    assert_eq!(back.len(), entries.len());
    for (a, b) in entries.iter().zip(back.iter()) {
        assert_eq!(a.name, b.name);
        assert_eq!(a.data, b.data);
    }
}

#[test]
fn archive_empty_roundtrip() {
    let entries: Vec<Entry> = vec![];
    let bytes = pack_archive(&entries);
    let back = unpack_archive(&bytes).unwrap();
    assert_eq!(back.len(), 0);
}

#[test]
fn archive_wire_layout() {
    let entries = vec![entry(b"a", b"xy")];
    let bytes = pack_archive(&entries);
    // magic, count, one table row (4 + 1 + 8 + 8), payload
    assert_eq!(&bytes[0..4], b"MVGL");
    assert_eq!(&bytes[4..8], &[1, 0, 0, 0]);
    assert_eq!(&bytes[8..12], &[1, 0, 0, 0]);
    assert_eq!(bytes[12], b'a');
    // offset = 8 + 21 = 29, size = 2
    assert_eq!(&bytes[13..21], &[29, 0, 0, 0, 0, 0, 0, 0]);
    assert_eq!(&bytes[21..29], &[2, 0, 0, 0, 0, 0, 0, 0]);
    assert_eq!(&bytes[29..], b"xy");
}

#[test]
fn archive_rejects_bad_magic() {
    let entries = vec![entry(b"a", b"xy")];
    let mut bytes = pack_archive(&entries);
    bytes[0] = b'X';
    assert!(matches!(unpack_archive(&bytes), Err(CodecError::MalformedHeader)));
}

#[test]
fn archive_rejects_truncation() {
    let entries = vec![entry(b"a", b"xy")];
    let bytes = pack_archive(&entries);
    let cut = bytes[..bytes.len() - 1].to_vec();
    assert!(matches!(unpack_archive(&cut), Err(CodecError::TruncatedFile)));
}

#[test]
fn archive_rejects_trailing_bytes() {
    let entries = vec![entry(b"a", b"xy")];
    let mut bytes = pack_archive(&entries);
    bytes.push(0);
    assert!(matches!(unpack_archive(&bytes), Err(CodecError::MalformedHeader)));
}

#[test]
fn merge_patch_over_base() {
    let base = vec![entry(b"a.mbe", b"old-a"), entry(b"b.bin", b"keep")];
    let patch = vec![entry(b"a.mbe", b"new-a"), entry(b"c.bin", b"extra")];
    let merged = merge_archives(&base, &patch);
    assert_eq!(merged.len(), 3);
    assert_eq!(merged[0].name, b"a.mbe".to_vec());
    assert_eq!(merged[0].data, b"new-a".to_vec());
    assert_eq!(merged[1].name, b"b.bin".to_vec());
    assert_eq!(merged[1].data, b"keep".to_vec());
    assert_eq!(merged[2].name, b"c.bin".to_vec());
    assert_eq!(merged[2].data, b"extra".to_vec());
}

#[test]
fn image_rename_roundtrip() {
    let n = b"texture.img".to_vec();
    let extracted = rename_for_extract(&n);
    assert_eq!(extracted, b"texture.dds".to_vec());
    assert_eq!(rename_for_pack(&extracted), n);
    // Other names pass through untouched.
    let other = b"sound.ogg".to_vec();
    assert_eq!(rename_for_extract(&other), other);
    assert_eq!(rename_for_pack(&other), b"sound.ogg".to_vec());
}

fn sample_mbe() -> MbeFile {
    // Two fields per record: a scalar copied verbatim and a text offset.
    MbeFile {
        kinds: vec![FieldKind::Scalar, FieldKind::Text],
        records: vec![
            vec![FieldVal::Scalar(0xdead), FieldVal::Text(0)],
            vec![FieldVal::Scalar(7), FieldVal::Text(1)],
            vec![FieldVal::Scalar(8), FieldVal::Text(0)],
        ],
        pool: vec![b"Hello".to_vec(), b"World".to_vec()],
    }
}

#[test]
fn mbe_build_parse_roundtrip() {
    let m = sample_mbe();
    let bytes = build_mbe(&m);
    let mut cur = Cursor::new();
    let back = parse_mbe(&bytes, &mut cur).unwrap();
    assert_eq!(cur.offset(), bytes.len());
    assert_eq!(back.kinds, m.kinds);
    assert_eq!(back.records, m.records);
    assert_eq!(back.pool, m.pool);
    // Rebuilding reproduces the stream byte-for-byte.
    assert_eq!(build_mbe(&back), bytes);
}

#[test]
fn mbe_wire_layout() {
    let m = MbeFile {
        kinds: vec![FieldKind::Text],
        records: vec![vec![FieldVal::Text(0)]],
        pool: vec![b"Hi".to_vec()],
    };
    let bytes = build_mbe(&m);
    assert_eq!(&bytes[0..4], b"MBE1");
    assert_eq!(&bytes[4..8], &[1, 0, 0, 0]); // one field
    assert_eq!(bytes[8], 1); // a text field
    assert_eq!(&bytes[9..13], &[1, 0, 0, 0]); // one record
    assert_eq!(&bytes[13..17], &[3, 0, 0, 0]); // offset field: end of "Hi\0"
    assert_eq!(&bytes[17..21], &[3, 0, 0, 0]); // region size
    assert_eq!(&bytes[21..], b"Hi\0");
}

#[test]
fn aliasing_is_not_rediscovered_by_content() {
    // Two stored strings with identical text stay two stored strings: the
    // aliasing structure is carried from the decoded file, never inferred by
    // comparing contents.
    let m = MbeFile {
        kinds: vec![FieldKind::Text],
        records: vec![vec![FieldVal::Text(0)], vec![FieldVal::Text(1)]],
        pool: vec![b"Hi".to_vec(), b"Hi".to_vec()],
    };
    let bytes = build_mbe(&m);
    // Header 13 bytes, then the two offset fields: 3 and 6, not 3 and 3.
    assert_eq!(&bytes[13..17], &[3, 0, 0, 0]);
    assert_eq!(&bytes[17..21], &[6, 0, 0, 0]);
    assert_eq!(&bytes[25..], b"Hi\0Hi\0");
}

#[test]
fn mbe_rejects_non_canonical_pool_order() {
    // A region holding two strings whose first reference points at the
    // second stored string: the bytes of a well-formed but non-canonical
    // file. The decoder accepts only the canonical first-reference order.
    let m = MbeFile {
        kinds: vec![FieldKind::Text, FieldKind::Text],
        records: vec![vec![FieldVal::Text(0), FieldVal::Text(1)]],
        pool: vec![b"ab".to_vec(), b"cd".to_vec()],
    };
    let mut bytes = build_mbe(&m);
    // Swap the two offset fields: the first field now points at the second
    // string's end (6), the second at the first's (3).
    // Header: magic(4) + field count(4) + kinds(2) + record count(4) = 14.
    let first = [bytes[14], bytes[15], bytes[16], bytes[17]];
    let second = [bytes[18], bytes[19], bytes[20], bytes[21]];
    bytes[14..18].copy_from_slice(&second);
    bytes[18..22].copy_from_slice(&first);
    let mut cur = Cursor::new();
    assert!(matches!(
        parse_mbe(&bytes, &mut cur),
        Err(CodecError::MalformedRecord { index: 0, .. })
    ));
}

#[test]
fn mbe_rejects_bad_magic() {
    let mut bytes = build_mbe(&sample_mbe());
    bytes[3] = b'?';
    let mut cur = Cursor::new();
    assert!(matches!(parse_mbe(&bytes, &mut cur), Err(CodecError::MalformedHeader)));
}

#[test]
fn mbe_rejects_truncation() {
    let bytes = build_mbe(&sample_mbe());
    let cut = bytes[..15].to_vec();
    let mut cur = Cursor::new();
    assert!(matches!(parse_mbe(&cut, &mut cur), Err(CodecError::TruncatedFile)));
}

#[test]
fn mbe_rejects_bad_offset_with_position() {
    let m = MbeFile {
        kinds: vec![FieldKind::Text],
        records: vec![vec![FieldVal::Text(0)]],
        pool: vec![b"Hi".to_vec()],
    };
    let mut bytes = build_mbe(&m);
    // Point the offset field into the middle of the stored string.
    bytes[13] = 2;
    let mut cur = Cursor::new();
    let err = match parse_mbe(&bytes, &mut cur) {
        Ok(_) => panic!("a mid-string offset must be rejected"),
        Err(e) => e,
    };
    // The data region starts at byte 21 and no byte of it was validated.
    assert_eq!(err, CodecError::MalformedRecord { index: 0, offset: 21 });
}

#[test]
fn mbe_rejects_unknown_field_kind() {
    let mut bytes = build_mbe(&sample_mbe());
    bytes[8] = 9;
    let mut cur = Cursor::new();
    assert!(matches!(parse_mbe(&bytes, &mut cur), Err(CodecError::MalformedHeader)));
}
