use thl_tools::edits::{rebuild_mbe, Edit};
use thl_tools::errors::CodecError;
use thl_tools::extract::{extract_rows, extract_table, make_key};
use thl_tools::lang::Language;
use thl_tools::mbe::{build_mbe, FieldKind, FieldVal, MbeFile};
use thl_tools::mvgl::{pack_archive, unpack_archive, Entry};
use thl_tools::repack::{
    check_mbe_files, repack_archive, repack_archive_unchanged, repack_mbe_unchanged,
};
use thl_tools::table::{from_tabular, to_tabular, DialogueTable, Row};

fn aliasing_mbe() -> MbeFile {
    // Three records whose single offset field stores "Hi", "Hi", "Bye";
    // records 0 and 1 alias one stored string.
    MbeFile {
        kinds: vec![FieldKind::Text],
        records: vec![
            vec![FieldVal::Text(0)],
            vec![FieldVal::Text(0)],
            vec![FieldVal::Text(1)],
        ],
        pool: vec![b"Hi".to_vec(), b"Bye".to_vec()],
    }
}

fn text_archive() -> Vec<u8> {
    let mbe = build_mbe(&aliasing_mbe());
    let entries = vec![
        Entry { name: b"dialogue.mbe".to_vec(), data: mbe },
        Entry { name: b"opaque.bin".to_vec(), data: vec![9, 8, 7] },
    ];
    pack_archive(&entries)
}

#[test]
fn mbe_repack_unchanged_is_identity() {
    let bytes = build_mbe(&aliasing_mbe());
    let again = repack_mbe_unchanged(&bytes).unwrap();
    assert_eq!(again, bytes);
}

#[test]
fn archive_repack_unchanged_is_identity() {
    let bytes = text_archive();
    let again = repack_archive_unchanged(&bytes).unwrap();
    assert_eq!(again, bytes);
}

#[test]
fn three_records_alias_scenario() {
    // Editing row 2 ("Bye" -> "Goodbye") must keep records 0 and 1 aliased,
    // grow record 2's offset field by 4, and grow the file by 4 bytes.
    let m = aliasing_mbe();
    let before = build_mbe(&m);
    let edit = Edit { record: 2, field: 0, text: b"Goodbye".to_vec() };
    let after = rebuild_mbe(&m, &vec![edit]).unwrap();
    assert_eq!(after.len(), before.len() + 4);
    // Header: magic(4) + field count(4) + kind(1) + record count(4) = 13.
    // Records 0 and 1 still alias: equal offset fields, unchanged.
    assert_eq!(&after[13..17], &before[13..17]);
    assert_eq!(&after[17..21], &before[17..21]);
    assert_eq!(&after[13..17], &[3, 0, 0, 0]);
    // Record 2's offset field grew by 4: 7 -> 11.
    assert_eq!(&before[21..25], &[7, 0, 0, 0]);
    assert_eq!(&after[21..25], &[11, 0, 0, 0]);
    // The region holds the new text.
    assert_eq!(&after[29..], b"Hi\0Goodbye\0");
}

#[test]
fn text_length_invariance() {
    // Editing the first stored string moves only what lies after it.
    let m = MbeFile {
        kinds: vec![FieldKind::Scalar, FieldKind::Text],
        records: vec![
            vec![FieldVal::Scalar(41), FieldVal::Text(0)],
            vec![FieldVal::Scalar(42), FieldVal::Text(1)],
        ],
        pool: vec![b"ab".to_vec(), b"cd".to_vec()],
    };
    let before = build_mbe(&m);
    let edit = Edit { record: 0, field: 1, text: b"abcde".to_vec() };
    let after = rebuild_mbe(&m, &vec![edit]).unwrap();
    // Header: 4 + 4 + 2 + 4 = 14; records at 14, each 8 bytes.
    // Scalars are untouched.
    assert_eq!(&after[14..18], &before[14..18]);
    assert_eq!(&after[22..26], &before[22..26]);
    // Record 0's offset field grows by the delta (3 -> 6)...
    assert_eq!(&before[18..22], &[3, 0, 0, 0]);
    assert_eq!(&after[18..22], &[6, 0, 0, 0]);
    // ...and so does every offset field after the changed string (6 -> 9).
    assert_eq!(&before[26..30], &[6, 0, 0, 0]);
    assert_eq!(&after[26..30], &[9, 0, 0, 0]);
}

#[test]
fn tabular_roundtrip_with_escapes() {
    let t = DialogueTable {
        languages: vec![b"English".to_vec(), b"Japanese".to_vec()],
        rows: vec![
            Row {
                key: b"a.mbe:0:0".to_vec(),
                cells: vec![b"plain".to_vec(), b"with, comma".to_vec()],
            },
            Row {
                key: b"a.mbe:1:0".to_vec(),
                cells: vec![b"line\nbreak".to_vec(), b"he said \"hi\"".to_vec()],
            },
            Row {
                key: b"a.mbe:2:0".to_vec(),
                cells: vec![b"".to_vec(), b"quote\"and,comma\n".to_vec()],
            },
        ],
    };
    let bytes = to_tabular(&t);
    let back = from_tabular(&bytes).unwrap();
    assert_eq!(back.languages, t.languages);
    assert_eq!(back.rows.len(), t.rows.len());
    for (a, b) in t.rows.iter().zip(back.rows.iter()) {
        assert_eq!(a.key, b.key);
        assert_eq!(a.cells, b.cells);
    }
    // Writing what came back reproduces the bytes.
    assert_eq!(to_tabular(&back), bytes);
}

#[test]
fn tabular_layout() {
    let t = DialogueTable {
        languages: vec![b"English".to_vec()],
        rows: vec![Row { key: b"k:0:0".to_vec(), cells: vec![b"a,b".to_vec()] }],
    };
    let bytes = to_tabular(&t);
    assert_eq!(bytes, b"key,English\nk:0:0,\"a,b\"\n".to_vec());
}

#[test]
fn tabular_rejects_column_mismatch() {
    let bytes = b"key,English\nk:0:0,a,b\n".to_vec();
    assert!(matches!(from_tabular(&bytes), Err(CodecError::MalformedTable)));
}

#[test]
fn tabular_rejects_duplicate_keys() {
    let bytes = b"key,English\nk:0:0,a\nk:0:0,b\n".to_vec();
    assert!(matches!(from_tabular(&bytes), Err(CodecError::MalformedTable)));
}

#[test]
fn tabular_rejects_missing_final_newline() {
    let bytes = b"key,English\nk:0:0,a".to_vec();
    assert!(matches!(from_tabular(&bytes), Err(CodecError::MalformedTable)));
}

#[test]
fn extract_rows_in_order() {
    let m = aliasing_mbe();
    let rows = extract_rows(&m);
    assert_eq!(rows.len(), 3);
    assert_eq!((rows[0].record, rows[0].field), (0, 0));
    assert_eq!(rows[0].text, b"Hi".to_vec());
    assert_eq!(rows[1].text, b"Hi".to_vec());
    assert_eq!(rows[2].text, b"Bye".to_vec());
}

#[test]
fn make_key_format() {
    let k = make_key(&b"dialogue.mbe".to_vec(), 12, 3);
    assert_eq!(k, b"dialogue.mbe:12:3".to_vec());
}

#[test]
fn extract_table_aligns_languages() {
    let archive_en = text_archive();
    // The second language's archive has only two records.
    let jp = MbeFile {
        kinds: vec![FieldKind::Text],
        records: vec![vec![FieldVal::Text(0)], vec![FieldVal::Text(1)]],
        pool: vec![b"ya".to_vec(), b"yo".to_vec()],
    };
    let archive_jp = pack_archive(&vec![Entry {
        name: b"dialogue.mbe".to_vec(),
        data: build_mbe(&jp),
    }]);
    let inputs = vec![
        (b"English".to_vec(), archive_en),
        (b"Japanese".to_vec(), archive_jp),
    ];
    let t = extract_table(&inputs).unwrap();
    assert_eq!(t.languages, vec![b"English".to_vec(), b"Japanese".to_vec()]);
    assert_eq!(t.rows.len(), 3);
    assert_eq!(t.rows[0].key, b"dialogue.mbe:0:0".to_vec());
    assert_eq!(t.rows[0].cells, vec![b"Hi".to_vec(), b"ya".to_vec()]);
    assert_eq!(t.rows[1].cells, vec![b"Hi".to_vec(), b"yo".to_vec()]);
    // A language that lacks the key leaves that cell empty, not absent.
    assert_eq!(t.rows[2].cells, vec![b"Bye".to_vec(), b"".to_vec()]);
}

#[test]
fn extract_table_accepts_out_of_order_keys() {
    // The second language's archive carries a record file whose keys come
    // before the keys the first language already produced; no language
    // yields a key twice, so extraction must succeed with empty cells where
    // a language lacks a key.
    let one = MbeFile {
        kinds: vec![FieldKind::Text],
        records: vec![vec![FieldVal::Text(0)]],
        pool: vec![b"A-text".to_vec()],
    };
    let archive_a = pack_archive(&vec![Entry {
        name: b"late.mbe".to_vec(),
        data: build_mbe(&one),
    }]);
    let early = MbeFile {
        kinds: vec![FieldKind::Text],
        records: vec![vec![FieldVal::Text(0)]],
        pool: vec![b"B-early".to_vec()],
    };
    let late = MbeFile {
        kinds: vec![FieldKind::Text],
        records: vec![vec![FieldVal::Text(0)]],
        pool: vec![b"B-late".to_vec()],
    };
    let archive_b = pack_archive(&vec![
        Entry { name: b"early.mbe".to_vec(), data: build_mbe(&early) },
        Entry { name: b"late.mbe".to_vec(), data: build_mbe(&late) },
    ]);
    let inputs = vec![(b"A".to_vec(), archive_a), (b"B".to_vec(), archive_b)];
    let t = extract_table(&inputs).unwrap();
    assert_eq!(t.rows.len(), 2);
    assert_eq!(t.rows[0].key, b"late.mbe:0:0".to_vec());
    assert_eq!(t.rows[0].cells, vec![b"A-text".to_vec(), b"B-late".to_vec()]);
    assert_eq!(t.rows[1].key, b"early.mbe:0:0".to_vec());
    assert_eq!(t.rows[1].cells, vec![b"".to_vec(), b"B-early".to_vec()]);
}

#[test]
fn repack_archive_applies_edit_and_relocates() {
    let reference = text_archive();
    let inputs = vec![(b"English".to_vec(), reference.clone())];
    let mut t = extract_table(&inputs).unwrap();
    // Edit the third row's text.
    t.rows[2].cells[0] = b"Goodbye".to_vec();
    let out = repack_archive(&reference, &t, 0).unwrap();
    assert_eq!(out.len(), reference.len() + 4);
    let entries = unpack_archive(&out).unwrap();
    assert_eq!(entries.len(), 2);
    // The opaque entry is untouched even though its archive offset moved.
    assert_eq!(entries[1].name, b"opaque.bin".to_vec());
    assert_eq!(entries[1].data, vec![9, 8, 7]);
    // The record file carries the new text, with aliasing preserved.
    let mut cur = thl_tools::cursor::Cursor::new();
    let file = thl_tools::mbe::parse_mbe(&entries[0].data, &mut cur).unwrap();
    assert_eq!(file.pool, vec![b"Hi".to_vec(), b"Goodbye".to_vec()]);
    assert_eq!(file.records[0], file.records[1]);
}

#[test]
fn repack_archive_empty_table_is_identity() {
    let reference = text_archive();
    let t = DialogueTable { languages: vec![b"English".to_vec()], rows: vec![] };
    let out = repack_archive(&reference, &t, 0).unwrap();
    assert_eq!(out, reference);
}

#[test]
fn repack_archive_rejects_unknown_row() {
    let reference = text_archive();
    let t = DialogueTable {
        languages: vec![b"English".to_vec()],
        rows: vec![Row { key: b"nowhere.mbe:9:9".to_vec(), cells: vec![b"x".to_vec()] }],
    };
    assert_eq!(repack_archive(&reference, &t, 0), Err(CodecError::UnknownRow));
}

#[test]
fn repack_rejects_missing_column() {
    // A row that matches the reference but has no cell for the asked column.
    let reference = text_archive();
    let t = DialogueTable {
        languages: vec![b"English".to_vec()],
        rows: vec![Row { key: b"dialogue.mbe:0:0".to_vec(), cells: vec![b"x".to_vec()] }],
    };
    assert_eq!(repack_archive(&reference, &t, 3), Err(CodecError::MalformedTable));
}

#[test]
fn repack_rejects_unstorable_text() {
    let m = aliasing_mbe();
    let edit = Edit { record: 0, field: 0, text: b"a\0b".to_vec() };
    assert_eq!(rebuild_mbe(&m, &vec![edit]), Err(CodecError::MalformedTable));
    let edit2 = Edit { record: 0, field: 5, text: b"x".to_vec() };
    assert_eq!(rebuild_mbe(&m, &vec![edit2]), Err(CodecError::UnknownRow));
}

#[test]
fn check_mbes_reports_one_failure_and_continues() {
    let good = build_mbe(&aliasing_mbe());
    let mut corrupt = good.clone();
    corrupt[13] = 1; // offset field no longer delimits a stored string
    let files = vec![
        (b"a.mbe".to_vec(), good.clone()),
        (b"bad.mbe".to_vec(), corrupt),
        (b"c.mbe".to_vec(), good),
    ];
    let failures = check_mbe_files(&files);
    assert_eq!(failures.len(), 1);
    assert_eq!(failures[0].0, 1);
    assert_eq!(failures[0].1, b"bad.mbe".to_vec());
    // The cursor had consumed the whole 36-byte stream before resolution
    // failed, so the cumulative offset is the file size.
    assert_eq!(failures[0].2, 36);
    // The error itself points at the data region: it starts after
    // header(13) + records(12) + size field(4), and none of it validated.
    assert!(matches!(failures[0].3, CodecError::MalformedRecord { index: 0, offset: 29 }));
}

#[test]
fn language_names() {
    assert_eq!(Language::English.name(), "English");
    assert_eq!(Language::Japanese.text_file_name(), "app_text00.dx11.mvgl");
    assert_eq!(Language::English.text_file_name(), "app_text01.dx11.mvgl");
    assert_eq!(Language::TraditionalChinese.patch_file_name(), "patch_text02.dx11.mvgl");
    assert_eq!(Language::SimplifiedChinese.patch_file_name(), "patch_text03.dx11.mvgl");
}
