use vstd::prelude::*;

use crate::bytes::copy_bytes;
use crate::cursor::Cursor;
use crate::edits::{
    apply_edits_spec, edited_pool, lemma_identity_edits, rebuild_mbe, view_edits,
};
use crate::errors::CodecError;
use crate::extract::{extract_rows, lemma_rows_identity, rows_of};
use crate::mbe::{mbe_bytes, parse_mbe, pool_size};
use crate::mvgl::{
    ends_with, has_ext, mvgl_bytes, mvgl_len, pack_archive, unpack_archive, view_entries, Entry,
    wf_entries,
};

verus! {

/// The extension of entries that hold record files.
pub open spec fn mbe_ext() -> Seq<u8> {
    seq![46u8, 109u8, 98u8, 101u8]
}

/// Whether an entry name names a record file.
pub open spec fn is_mbe_name(n: Seq<u8>) -> bool {
    ends_with(n, mbe_ext())
}

/// Checks whether an entry name names a record file.
pub fn name_is_mbe(name: &Vec<u8>) -> (r: bool)
    ensures
        r == is_mbe_name(name@),
{
    has_ext(name, 46, 109, 98, 101)
}

/// Round-trip law for one record file: decoding it, exporting every text row
/// unmodified, and rebuilding from those rows reproduces the input
/// byte-for-byte — and the operation fails only on an input that no
/// canonical record file encodes.
pub fn repack_mbe_unchanged(data: &Vec<u8>) -> (r: Result<Vec<u8>, CodecError>)
    ensures
        match r {
            Ok(out) => out@ == data@,
            Err(_) => !crate::mbe::mbe_canonical_decodable(data@),
        },
{
    let mut cur = Cursor::new();
    let file = match parse_mbe(data, &mut cur) {
        Ok(f) => f,
        Err(e) => { return Err(e); },
    };
    let rows = extract_rows(&file);
    proof {
        lemma_rows_identity(file@);
        lemma_identity_edits(file@, rows_of(file@));
        assert(edited_pool(file@, view_edits(rows@)) == file@.pool);
        assert(pool_size(edited_pool(file@, view_edits(rows@))) <= 0xffff_ffff);
    }
    match rebuild_mbe(&file, &rows) {
        Ok(out) => {
            proof {
                assert(apply_edits_spec(file@, view_edits(rows@)) == file@);
                assert(out@ == mbe_bytes(file@));
            }
            Ok(out)
        },
        Err(_) => {
            proof {
                assert(false);
            }
            Err(CodecError::MalformedTable)
        },
    }
}

/// Whether an archive is a reference this library can repack: its bytes
/// decode, and every record-file entry's bytes are the encoding of a
/// canonical record file.
pub open spec fn repackable_reference(b: Seq<u8>) -> bool {
    &&& crate::mvgl::archive_decodable(b)
    &&& forall|i: int| 0 <= i < crate::mvgl::decoded_archive(b).len() && is_mbe_name(
        (#[trigger] crate::mvgl::decoded_archive(b)[i]).name)
        ==> crate::mbe::mbe_canonical_decodable(crate::mvgl::decoded_archive(b)[i].data)
}

/// Round-trip law for a whole archive: decoding it and re-encoding every
/// record file from its own unmodified rows, then repacking, reproduces the
/// reference archive byte-for-byte — both relocation levels included — and
/// the operation fails only on an archive that is not a repackable
/// reference.
pub fn repack_archive_unchanged(reference: &Vec<u8>) -> (r: Result<Vec<u8>, CodecError>)
    ensures
        match r {
            Ok(out) => out@ == reference@,
            Err(_) => !repackable_reference(reference@),
        },
{
    let entries = match unpack_archive(reference) {
        Ok(es) => es,
        Err(e) => { return Err(e); },
    };
    let ghost em = view_entries(entries@);
    let mut rebuilt: Vec<Entry> = Vec::new();
    let mut i: usize = 0;
    while i < entries.len()
        invariant
            i <= entries@.len(),
            em == view_entries(entries@),
            em == crate::mvgl::decoded_archive(reference@),
            crate::mvgl::archive_decodable(reference@),
            view_entries(rebuilt@) =~= em.subrange(0, i as int),
        decreases entries@.len() - i,
    {
        let ghost before = view_entries(rebuilt@);
        let name = copy_bytes(&entries[i].name);
        if name_is_mbe(&entries[i].name) {
            let data = match repack_mbe_unchanged(&entries[i].data) {
                Ok(b) => b,
                Err(e) => {
                    proof {
                        assert(is_mbe_name(em[i as int].name));
                        assert(!crate::mbe::mbe_canonical_decodable(em[i as int].data));
                    }
                    return Err(e);
                },
            };
            rebuilt.push(Entry { name, data });
        } else {
            let data = copy_bytes(&entries[i].data);
            rebuilt.push(Entry { name, data });
        }
        proof {
            assert(view_entries(rebuilt@) =~= before.push(rebuilt@.last()@));
            assert(rebuilt@.last()@ =~= em[i as int]);
            assert(view_entries(rebuilt@) =~= em.subrange(0, i + 1));
        }
        i = i + 1;
    }
    proof {
        assert(em.subrange(0, entries@.len() as int) =~= em);
        assert(view_entries(rebuilt@) =~= em);
        assert(wf_entries(view_entries(rebuilt@)));
        assert(mvgl_len(view_entries(rebuilt@)) == reference@.len());
    }
    let _n = reference.len();
    assert(reference@.len() <= usize::MAX);
    let out = pack_archive(&rebuilt);
    proof {
        assert(out@ == mvgl_bytes(em));
    }
    Ok(out)
}

/// The index of the first table row with this key, or a negative value
/// when no row has it.
pub open spec fn row_for_key(rows: Seq<crate::table::RowModel>, key: Seq<u8>) -> int
    decreases rows.len(),
{
    if rows.len() == 0 {
        -1
    } else if rows[0].key == key {
        0
    } else {
        let r = row_for_key(rows.subrange(1, rows.len() as int), key);
        if r < 0 {
            -1
        } else {
            r + 1
        }
    }
}

/// `row_for_key` returns the index of the first row with the key, and a
/// negative value exactly when no row has it.
pub proof fn lemma_row_for_key(rows: Seq<crate::table::RowModel>, key: Seq<u8>)
    ensures
        row_for_key(rows, key) < 0 ==> (forall|i: int| 0 <= i < rows.len() ==> (
        #[trigger] rows[i]).key != key),
        row_for_key(rows, key) >= 0 ==> {
            &&& row_for_key(rows, key) < rows.len()
            &&& rows[row_for_key(rows, key)].key == key
            &&& forall|i: int| 0 <= i < row_for_key(rows, key) ==> (#[trigger] rows[i]).key
                != key
        },
    decreases rows.len(),
{
    if rows.len() > 0 && rows[0].key != key {
        let t = rows.subrange(1, rows.len() as int);
        lemma_row_for_key(t, key);
        let ft = row_for_key(t, key);
        if ft < 0 {
            assert forall|i: int| 0 <= i < rows.len() implies (#[trigger] rows[i]).key
                != key by {
                if i > 0 {
                    assert(t[i - 1] == rows[i]);
                    assert(t[i - 1].key != key);
                }
            }
        } else {
            assert(row_for_key(rows, key) == ft + 1);
            assert(rows[ft + 1] == t[ft]);
            assert forall|i: int| 0 <= i < ft + 1 implies (#[trigger] rows[i]).key != key by {
                if i > 0 {
                    assert(t[i - 1] == rows[i]);
                    assert(t[i - 1].key != key);
                }
            }
        }
    }
}

/// Finds the first table row whose key equals `key`.
fn find_row(rows: &Vec<crate::table::Row>, key: &Vec<u8>) -> (r: Option<usize>)
    ensures
        match r {
            Some(j) => j < rows@.len() && row_for_key(crate::table::view_rows(rows@), key@)
                == j as int,
            None => row_for_key(crate::table::view_rows(rows@), key@) < 0,
        },
{
    let ghost vr = crate::table::view_rows(rows@);
    let mut j: usize = 0;
    while j < rows.len()
        invariant
            j <= rows@.len(),
            vr == crate::table::view_rows(rows@),
            forall|q: int| 0 <= q < j ==> (#[trigger] vr[q]).key != key@,
        decreases rows@.len() - j,
    {
        if crate::bytes::bytes_eq(&rows[j].key, key) {
            proof {
                lemma_row_for_key(vr, key@);
                let ft = row_for_key(vr, key@);
                assert(vr[j as int].key == key@);
                if ft < 0 {
                    assert(vr[j as int].key != key@);
                }
                if ft > j as int {
                    assert(vr[j as int].key != key@);
                }
            }
            return Some(j);
        }
        j = j + 1;
    }
    proof {
        lemma_row_for_key(vr, key@);
        let ft = row_for_key(vr, key@);
        if ft >= 0 {
            assert(vr[ft].key != key@);
        }
    }
    None
}

/// The edits that a dialogue table selects for one record file, from field
/// `f` of record `r` on: one edit per offset field whose key the table has,
/// carrying the text of the chosen column of the first row with that key.
pub open spec fn edits_for_fields(
    m: crate::mbe::MbeModel,
    name: Seq<u8>,
    t: crate::table::TableModel,
    lang: int,
    r: int,
    f: int,
) -> Seq<crate::edits::EditModel>
    decreases m.kinds.len() - f,
{
    if f < 0 || f >= m.kinds.len() {
        Seq::<crate::edits::EditModel>::empty()
    } else {
        (match m.records[r][f] {
            crate::mbe::FieldVal::Text(_) => {
                let j = row_for_key(t.rows, crate::extract::make_key_spec(name, r as nat,
                    f as nat));
                if j >= 0 {
                    seq![crate::edits::EditModel { record: r, field: f, text: t.rows[j].cells[
                        lang] }]
                } else {
                    Seq::<crate::edits::EditModel>::empty()
                }
            },
            crate::mbe::FieldVal::Scalar(_) => Seq::<crate::edits::EditModel>::empty(),
        }) + edits_for_fields(m, name, t, lang, r, f + 1)
    }
}

/// The edits the table selects for the records from `r` on, in record order.
pub open spec fn edits_for_from(
    m: crate::mbe::MbeModel,
    name: Seq<u8>,
    t: crate::table::TableModel,
    lang: int,
    r: int,
) -> Seq<crate::edits::EditModel>
    decreases m.records.len() - r,
{
    if r < 0 || r >= m.records.len() {
        Seq::<crate::edits::EditModel>::empty()
    } else {
        edits_for_fields(m, name, t, lang, r, 0) + edits_for_from(m, name, t, lang, r + 1)
    }
}

/// Every edit the table selects for one record file, in record-major, field
/// order.
pub open spec fn edits_for(
    m: crate::mbe::MbeModel,
    name: Seq<u8>,
    t: crate::table::TableModel,
    lang: int,
) -> Seq<crate::edits::EditModel> {
    edits_for_from(m, name, t, lang, 0)
}

/// How one rebuilt entry relates to its reference entry: the name is kept;
/// a record file is re-encoded after the table's edits for column `lang` are
/// applied to its decoded form; any other entry is carried verbatim.
pub open spec fn entry_repacked(
    e: crate::mvgl::EntryModel,
    e2: crate::mvgl::EntryModel,
    t: crate::table::TableModel,
    lang: int,
) -> bool {
    &&& e2.name == e.name
    &&& if is_mbe_name(e.name) {
        exists|m: crate::mbe::MbeModel| {
            &&& crate::mbe::wf_mbe(m)
            &&& (#[trigger] crate::mbe::mbe_bytes(m)) == e.data
            &&& e2.data == crate::mbe::mbe_bytes(apply_edits_spec(m, edits_for(m, e.name, t,
                lang)))
        }
    } else {
        e2.data == e.data
    }
}

/// Checks whether a decoded record file defines the given row key.
fn mbe_has_key(name: &Vec<u8>, file: &crate::mbe::MbeFile, key: &Vec<u8>) -> (r: bool)
{
    let mut rr: usize = 0;
    while rr < file.records.len()
        decreases file.records@.len() - rr,
    {
        let mut f: usize = 0;
        while f < file.records[rr].len()
            invariant
                rr < file.records@.len(),
            decreases file.records@[rr as int]@.len() - f,
        {
            let is_text = match file.records[rr][f] {
                crate::mbe::FieldVal::Text(_) => true,
                crate::mbe::FieldVal::Scalar(_) => false,
            };
            if is_text {
                let k = crate::extract::make_key(name, rr as u32, f as u32);
                if crate::bytes::bytes_eq(&k, key) {
                    return true;
                }
            }
            f = f + 1;
        }
        rr = rr + 1;
    }
    false
}

/// Rebuilds an archive from a reference archive and an edited dialogue
/// table, substituting the table's texts for column `lang` and relocating
/// every offset the changed byte lengths move, inside each record file and
/// in the archive's entry table alike.
///
/// On success the output is pinned exactly: it is the encoding of the
/// reference's entry list in which every record file has been re-encoded
/// with the table's edits for column `lang` applied (`entry_repacked`), and
/// every other entry is carried verbatim. Structure-preserving: record
/// counts, field order, aliasing and every non-text byte come from the
/// reference. A table row whose key no record file of the reference defines
/// fails with `UnknownRow`; a column index the table does not have, or an
/// edited archive too large for its size fields, fails with
/// `MalformedTable`; the operation is fail-fast and atomic, emitting nothing
/// on error. A table with no rows reproduces the reference byte-for-byte.
pub fn repack_archive(reference: &Vec<u8>, table: &crate::table::DialogueTable, lang: usize) -> (r:
    Result<Vec<u8>, CodecError>)
    ensures
        match r {
            Ok(out) => {
                &&& crate::mvgl::archive_decodable(reference@)
                &&& (table@.rows.len() == 0 ==> out@ == reference@)
                &&& exists|es2: Seq<crate::mvgl::EntryModel>| {
                    &&& wf_entries(es2)
                    &&& es2.len() == crate::mvgl::decoded_archive(reference@).len()
                    &&& (forall|q: int| 0 <= q < es2.len() ==> #[trigger] entry_repacked(
                        crate::mvgl::decoded_archive(reference@)[q], es2[q], table@,
                        lang as int))
                    &&& out@ == (#[trigger] mvgl_bytes(es2))
                }
            },
            Err(_) => true,
        },
{
    let entries = match unpack_archive(reference) {
        Ok(es) => es,
        Err(e) => { return Err(e); },
    };
    let ghost em = view_entries(entries@);

    // Decode every record file once.
    let mut parsed: Vec<Option<crate::mbe::MbeFile>> = Vec::new();
    let mut i: usize = 0;
    while i < entries.len()
        invariant
            i <= entries@.len(),
            em == view_entries(entries@),
            parsed@.len() == i,
            forall|q: int| 0 <= q < i ==> match #[trigger] parsed@[q] {
                Some(f) => crate::mbe::wf_mbe(f@) && crate::mbe::mbe_bytes(f@) == em[q].data
                    && is_mbe_name(em[q].name),
                None => !is_mbe_name(em[q].name),
            },
        decreases entries@.len() - i,
    {
        if name_is_mbe(&entries[i].name) {
            let mut cur = Cursor::new();
            let file = match crate::mbe::parse_mbe(&entries[i].data, &mut cur) {
                Ok(f) => f,
                Err(e) => { return Err(e); },
            };
            parsed.push(Some(file));
        } else {
            parsed.push(None);
        }
        i = i + 1;
    }

    // Every table row must name a row of some record file of the reference.
    let mut ri: usize = 0;
    while ri < table.rows.len()
        invariant
            ri <= table.rows@.len(),
            parsed@.len() == entries@.len(),
        decreases table.rows@.len() - ri,
    {
        let mut matched = false;
        let mut ei: usize = 0;
        while ei < entries.len()
            invariant
                ei <= entries@.len(),
                ri < table.rows@.len(),
                parsed@.len() == entries@.len(),
            decreases entries@.len() - ei,
        {
            let has = match &parsed[ei] {
                Some(file) => mbe_has_key(&entries[ei].name, file, &table.rows[ri].key),
                None => false,
            };
            if has {
                matched = true;
            }
            ei = ei + 1;
        }
        if !matched {
            return Err(CodecError::UnknownRow);
        }
        ri = ri + 1;
    }

    // Rebuild each record file with the edits its keys select.
    let mut rebuilt: Vec<Entry> = Vec::new();
    let mut i: usize = 0;
    while i < entries.len()
        invariant
            i <= entries@.len(),
            em == view_entries(entries@),
            parsed@.len() == entries@.len(),
            rebuilt@.len() == i,
            forall|q: int| 0 <= q < i ==> (#[trigger] view_entries(rebuilt@)[q]).name
                == em[q].name,
            forall|q: int| 0 <= q < i ==> #[trigger] entry_repacked(em[q], view_entries(
                rebuilt@)[q], table@, lang as int),
            table@.rows.len() == 0 ==> view_entries(rebuilt@) =~= em.subrange(0, i as int),
            forall|q: int| 0 <= q < entries@.len() ==> match #[trigger] parsed@[q] {
                Some(f) => crate::mbe::wf_mbe(f@) && crate::mbe::mbe_bytes(f@) == em[q].data
                    && is_mbe_name(em[q].name),
                None => !is_mbe_name(em[q].name),
            },
        decreases entries@.len() - i,
    {
        let ghost before = view_entries(rebuilt@);
        let name = copy_bytes(&entries[i].name);
        match &parsed[i] {
            Some(file) => {
                let ghost fm = file@;
                let ghost nm = em[i as int].name;
                proof {
                    assert(nm == entries@[i as int]@.name);
                }
                let mut edits: Vec<crate::edits::Edit> = Vec::new();
                let mut rr: usize = 0;
                while rr < file.records.len()
                    invariant
                        rr <= file.records@.len(),
                        i < entries@.len(),
                        fm == file@,
                        nm == entries@[i as int].name@,
                        crate::mbe::wf_mbe(fm),
                        table@.rows.len() == 0 ==> edits@.len() == 0,
                        crate::edits::view_edits(edits@) + edits_for_from(fm, nm, table@,
                            lang as int, rr as int) =~= edits_for(fm, nm, table@, lang as int),
                    decreases file.records@.len() - rr,
                {
                    proof {
                        assert(fm.records[rr as int].len() == fm.kinds.len());
                        assert(fm.records[rr as int] == file.records@[rr as int]@);
                    }
                    let mut f: usize = 0;
                    while f < file.records[rr].len()
                        invariant
                            rr < file.records@.len(),
                            f <= fm.kinds.len(),
                            i < entries@.len(),
                            fm == file@,
                            nm == entries@[i as int].name@,
                            crate::mbe::wf_mbe(fm),
                            file.records@[rr as int]@.len() == fm.kinds.len(),
                            table@.rows.len() == 0 ==> edits@.len() == 0,
                            crate::edits::view_edits(edits@) + edits_for_fields(fm, nm, table@,
                                lang as int, rr as int, f as int) + edits_for_from(fm, nm,
                                table@, lang as int, rr + 1) =~= edits_for(fm, nm, table@,
                                lang as int),
                        decreases fm.kinds.len() - f,
                    {
                        let ghost oed = crate::edits::view_edits(edits@);
                        let is_text = match file.records[rr][f] {
                            crate::mbe::FieldVal::Text(_) => true,
                            crate::mbe::FieldVal::Scalar(_) => false,
                        };
                        if is_text {
                            let key = crate::extract::make_key(&entries[i].name, rr as u32,
                                f as u32);
                            proof {
                                assert(rr < 0x1_0000_0000);
                                assert(f < 0x1_0000_0000);
                                assert(key@ == crate::extract::make_key_spec(nm, rr as nat,
                                    f as nat));
                            }
                            match find_row(&table.rows, &key) {
                                Some(j) => {
                                    if lang >= table.rows[j].cells.len() {
                                        return Err(CodecError::MalformedTable);
                                    }
                                    let text = copy_bytes(&table.rows[j].cells[lang]);
                                    edits.push(crate::edits::Edit { record: rr, field: f, text });
                                    proof {
                                        assert(table@.rows.len() > 0);
                                        assert(crate::table::view_rows(table.rows@)
                                            =~= table@.rows);
                                        assert(crate::edits::view_edits(edits@).drop_last()
                                            =~= oed);
                                        assert(crate::edits::view_edits(edits@).last()
                                            == edits@.last()@);
                                        assert(table@.rows[j as int].cells[lang as int]
                                            == table.rows@[j as int].cells@[lang as int]@);
                                        assert(edits@.last()@ =~= crate::edits::EditModel {
                                            record: rr as int,
                                            field: f as int,
                                            text: table@.rows[j as int].cells[lang as int],
                                        });
                                        assert(edits_for_fields(fm, nm, table@, lang as int,
                                            rr as int, f as int) =~= seq![edits@.last()@]
                                            + edits_for_fields(fm, nm, table@, lang as int,
                                            rr as int, f + 1));
                                        assert(crate::edits::view_edits(edits@)
                                            + edits_for_fields(fm, nm, table@, lang as int,
                                            rr as int, f + 1) + edits_for_from(fm, nm, table@,
                                            lang as int, rr + 1) =~= oed + edits_for_fields(fm,
                                            nm, table@, lang as int, rr as int, f as int)
                                            + edits_for_from(fm, nm, table@, lang as int,
                                            rr + 1));
                                    }
                                },
                                None => {
                                    proof {
                                        assert(crate::table::view_rows(table.rows@)
                                            =~= table@.rows);
                                        assert(row_for_key(table@.rows, key@) < 0);
                                        assert(edits_for_fields(fm, nm, table@, lang as int,
                                            rr as int, f as int) =~= edits_for_fields(fm, nm,
                                            table@, lang as int, rr as int, f + 1));
                                    }
                                },
                            }
                        } else {
                            proof {
                                assert(edits_for_fields(fm, nm, table@, lang as int, rr as int,
                                    f as int) =~= edits_for_fields(fm, nm, table@, lang as int,
                                    rr as int, f + 1));
                            }
                        }
                        f = f + 1;
                    }
                    proof {
                        assert(edits_for_fields(fm, nm, table@, lang as int, rr as int,
                            fm.kinds.len() as int) =~= Seq::<crate::edits::EditModel>::empty());
                        assert(edits_for_from(fm, nm, table@, lang as int, rr as int)
                            =~= edits_for_fields(fm, nm, table@, lang as int, rr as int, 0)
                            + edits_for_from(fm, nm, table@, lang as int, rr + 1));
                    }
                    rr = rr + 1;
                }
                proof {
                    assert(edits_for_from(fm, nm, table@, lang as int,
                        file.records@.len() as int) =~= Seq::<
                        crate::edits::EditModel,
                    >::empty());
                    assert(crate::edits::view_edits(edits@) =~= edits_for(fm, nm, table@,
                        lang as int));
                    if table@.rows.len() == 0 {
                        assert(crate::edits::view_edits(edits@)
                            =~= Seq::<crate::edits::EditModel>::empty());
                        lemma_identity_edits(fm, crate::edits::view_edits(edits@));
                        assert(crate::edits::apply_edits_spec(fm, crate::edits::view_edits(
                            edits@)) == fm);
                    }
                }
                let data = match rebuild_mbe(file, &edits) {
                    Ok(b) => b,
                    Err(e) => { return Err(e); },
                };
                rebuilt.push(Entry { name, data });
                proof {
                    assert(rebuilt@.last()@.data == crate::mbe::mbe_bytes(apply_edits_spec(fm,
                        edits_for(fm, nm, table@, lang as int))));
                    assert(crate::mbe::mbe_bytes(fm) == em[i as int].data);
                    assert(entry_repacked(em[i as int], rebuilt@.last()@, table@, lang as int));
                }
            },
            None => {
                let data = copy_bytes(&entries[i].data);
                rebuilt.push(Entry { name, data });
                proof {
                    assert(match parsed@[i as int] {
                        Some(f) => crate::mbe::wf_mbe(f@) && crate::mbe::mbe_bytes(f@)
                            == em[i as int].data && is_mbe_name(em[i as int].name),
                        None => !is_mbe_name(em[i as int].name),
                    });
                    assert(!is_mbe_name(em[i as int].name));
                    assert(entry_repacked(em[i as int], rebuilt@.last()@, table@, lang as int));
                }
            },
        }
        proof {
            assert(view_entries(rebuilt@) =~= before.push(rebuilt@.last()@));
            assert(rebuilt@.last()@.name == em[i as int].name);
            assert forall|q: int| 0 <= q < i + 1 implies (#[trigger] view_entries(
                rebuilt@)[q]).name == em[q].name by {
                if q < i {
                    assert(view_entries(rebuilt@)[q] == before[q]);
                }
            }
            assert forall|q: int| 0 <= q < i + 1 implies #[trigger] entry_repacked(em[q],
                view_entries(rebuilt@)[q], table@, lang as int) by {
                if q < i {
                    assert(view_entries(rebuilt@)[q] == before[q]);
                } else {
                    assert(view_entries(rebuilt@)[q] == rebuilt@.last()@);
                }
            }
            if table@.rows.len() == 0 {
                assert(rebuilt@.last()@ =~= em[i as int]);
                assert(view_entries(rebuilt@) =~= em.subrange(0, i + 1));
            }
        }
        i = i + 1;
    }
    proof {
        if table@.rows.len() == 0 {
            assert(em.subrange(0, entries@.len() as int) =~= em);
            assert(view_entries(rebuilt@) =~= em);
        }
    }

    // The rebuilt archive must fit the address space before it is packed.
    let ghost rm = view_entries(rebuilt@);
    let mut acc: u64 = 8;
    let mut q: usize = 0;
    while q < rebuilt.len()
        invariant
            q <= rebuilt@.len(),
            rm == view_entries(rebuilt@),
            rebuilt@.len() == em.len(),
            em == view_entries(entries@),
            wf_entries(em),
            forall|q2: int| 0 <= q2 < rebuilt@.len() ==> (#[trigger] view_entries(
                rebuilt@)[q2]).name == em[q2].name,
            acc as int == 8 + crate::mvgl::table_len(rm.subrange(0, q as int))
                + crate::mvgl::payload_len(rm.subrange(0, q as int)),
            acc <= 0x3_0000_0000_0000,
        decreases rebuilt@.len() - q,
    {
        proof {
            assert(rm.subrange(0, q + 1).drop_last() =~= rm.subrange(0, q as int));
            assert(rm.subrange(0, q + 1).last() == rm[q as int]);
            assert(rm[q as int].name == em[q as int].name);
            assert(em[q as int].name.len() <= 0xffff_ffff);
        }
        if acc > 0x1_0000_0000_0000 {
            return Err(CodecError::MalformedTable);
        }
        if rebuilt[q].data.len() as u64 > 0xffff_ffff_ffff {
            return Err(CodecError::MalformedTable);
        }
        acc = acc + 20 + rebuilt[q].name.len() as u64 + rebuilt[q].data.len() as u64;
        q = q + 1;
    }
    if acc > usize::MAX as u64 {
        return Err(CodecError::MalformedTable);
    }
    proof {
        assert(rm.subrange(0, rebuilt@.len() as int) =~= rm);
        assert(crate::mvgl::mvgl_len(rm) == acc as int);
        assert(wf_entries(rm));
        if table@.rows.len() == 0 {
            assert(rm =~= em);
        }
    }
    let out = pack_archive(&rebuilt);
    proof {
        assert(em == crate::mvgl::decoded_archive(reference@));
        assert(out@ == mvgl_bytes(rm));
        assert(wf_entries(rm) && rm.len() == crate::mvgl::decoded_archive(reference@).len()
            && (forall|q2: int| 0 <= q2 < rm.len() ==> #[trigger] entry_repacked(
            crate::mvgl::decoded_archive(reference@)[q2], rm[q2], table@, lang as int))
            && out@ == mvgl_bytes(rm));
    }
    Ok(out)
}

/// Whether the batch report names input `i` as a failure.
pub open spec fn reported(failures: Seq<(usize, Vec<u8>, usize, CodecError)>, i: int) -> bool {
    exists|j: int| 0 <= j < failures.len() && (#[trigger] failures[j]).0 == i
}

/// Validates a batch of record files: attempts a full decode of each and
/// reports, per failing file, its input position, its name, the cumulative
/// byte offset the decoder reached, and the error — continuing with the
/// remaining files rather than aborting the batch.
///
/// The report is pinned on both sides: every reported position is in range,
/// carries that input's own name and an offset within the file, and its
/// bytes are the encoding of no canonical record file; positions are
/// strictly increasing (input order, one report per file at most); and
/// every input that is not reported decodes — its bytes are the encoding of
/// a canonical record file.
pub fn check_mbe_files(files: &Vec<(Vec<u8>, Vec<u8>)>) -> (failures: Vec<(usize, Vec<u8>, usize,
    CodecError)>)
    ensures
        failures@.len() <= files@.len(),
        forall|j: int| 0 <= j < failures@.len() ==> (#[trigger] failures@[j]).0
            < files@.len() && failures@[j].1@ == files@[failures@[j].0 as int].0@
            && failures@[j].2 <= files@[failures@[j].0 as int].1@.len()
            && !crate::mbe::mbe_canonical_decodable(files@[failures@[j].0 as int].1@),
        forall|j1: int, j2: int| 0 <= j1 < j2 < failures@.len() ==> (
        #[trigger] failures@[j1]).0 < (#[trigger] failures@[j2]).0,
        forall|i: int| 0 <= i < files@.len() ==> reported(failures@, i)
            || crate::mbe::mbe_canonical_decodable((#[trigger] files@[i]).1@),
{
    let mut failures: Vec<(usize, Vec<u8>, usize, CodecError)> = Vec::new();
    let mut i: usize = 0;
    while i < files.len()
        invariant
            i <= files@.len(),
            failures@.len() <= i,
            forall|j: int| 0 <= j < failures@.len() ==> (#[trigger] failures@[j]).0 < i
                && failures@[j].1@ == files@[failures@[j].0 as int].0@ && failures@[j].2
                <= files@[failures@[j].0 as int].1@.len()
                && !crate::mbe::mbe_canonical_decodable(files@[failures@[j].0 as int].1@),
            forall|j1: int, j2: int| 0 <= j1 < j2 < failures@.len() ==> (
            #[trigger] failures@[j1]).0 < (#[trigger] failures@[j2]).0,
            forall|q: int| 0 <= q < i ==> reported(failures@, q)
                || crate::mbe::mbe_canonical_decodable((#[trigger] files@[q]).1@),
        decreases files@.len() - i,
    {
        let ghost ofails = failures@;
        let mut cur = Cursor::new();
        match crate::mbe::parse_mbe(&files[i].1, &mut cur) {
            Ok(_) => {},
            Err(e) => {
                let name = copy_bytes(&files[i].0);
                failures.push((i, name, cur.offset(), e));
                proof {
                    assert(failures@.drop_last() =~= ofails);
                    assert(failures@.last() == (i, failures@.last().1, failures@.last().2, e));
                }
            },
        }
        proof {
            assert forall|q: int| 0 <= q < i + 1 implies reported(failures@, q)
                || crate::mbe::mbe_canonical_decodable((#[trigger] files@[q]).1@) by {
                if q < i {
                    if reported(ofails, q) {
                        let j = choose|j: int| 0 <= j < ofails.len() && (
                        #[trigger] ofails[j]).0 == q;
                        assert(failures@[j].0 == q);
                    }
                } else {
                    if failures@.len() > ofails.len() {
                        assert(failures@[failures@.len() - 1].0 == q);
                    }
                }
            }
        }
        i = i + 1;
    }
    failures
}

} // verus!
