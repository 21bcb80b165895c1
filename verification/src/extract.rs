use vstd::prelude::*;

use crate::bytes::{copy_bytes, dec_bytes, u32_to_dec, push_bytes};
use crate::edits::{edit_ok, edit_target, view_edits, Edit, EditModel};
use crate::mbe::{wf_mbe, FieldVal, MbeFile, MbeModel};

verus! {

/// The text rows of one record from field `f` on: one row per offset field,
/// carrying the record and field indices and the stored text the field
/// points at.
pub open spec fn row_fields(m: MbeModel, r: int, f: int) -> Seq<EditModel>
    decreases m.kinds.len() - f,
{
    if f < 0 || f >= m.kinds.len() {
        Seq::<EditModel>::empty()
    } else {
        (match m.records[r][f] {
            FieldVal::Text(k) => seq![EditModel { record: r, field: f, text: m.pool[k as int] }],
            FieldVal::Scalar(_) => Seq::<EditModel>::empty(),
        }) + row_fields(m, r, f + 1)
    }
}

/// The text rows of the records from `r` on, in record order.
pub open spec fn rows_from(m: MbeModel, r: int) -> Seq<EditModel>
    decreases m.records.len() - r,
{
    if r < 0 || r >= m.records.len() {
        Seq::<EditModel>::empty()
    } else {
        row_fields(m, r, 0) + rows_from(m, r + 1)
    }
}

/// Every text row of a file, in record-major, field order. This is the
/// deterministic row order of the dialogue table.
pub open spec fn rows_of(m: MbeModel) -> Seq<EditModel> {
    rows_from(m, 0)
}

/// Each row of one record names an offset field of that record and carries
/// exactly the text the reference stores for it.
proof fn lemma_row_fields_props(m: MbeModel, r: int, f: int)
    requires
        wf_mbe(m),
        0 <= r < m.records.len(),
    ensures
        forall|i: int| 0 <= i < row_fields(m, r, f).len() ==> edit_ok(m, #[trigger] row_fields(m,
            r, f)[i]),
        forall|i: int| 0 <= i < row_fields(m, r, f).len() ==> (#[trigger] row_fields(m, r,
            f)[i]).text == m.pool[edit_target(m, row_fields(m, r, f)[i])],
    decreases m.kinds.len() - f,
{
    if 0 <= f < m.kinds.len() {
        lemma_row_fields_props(m, r, f + 1);
        assert(m.records[r].len() == m.kinds.len());
        assert(crate::mbe::field_matches(m.kinds[f], m.records[r][f], m.pool.len() as int));
        let head = match m.records[r][f] {
            FieldVal::Text(k) => seq![EditModel { record: r, field: f, text: m.pool[k as int] }],
            FieldVal::Scalar(_) => Seq::<EditModel>::empty(),
        };
        let tail = row_fields(m, r, f + 1);
        assert forall|i: int| 0 <= i < row_fields(m, r, f).len() implies edit_ok(m, #[trigger]
        row_fields(m, r, f)[i]) && row_fields(m, r, f)[i].text == m.pool[edit_target(m,
            row_fields(m, r, f)[i])] by {
            if i < head.len() {
                assert(row_fields(m, r, f)[i] == head[0]);
            } else {
                assert(row_fields(m, r, f)[i] == tail[i - head.len()]);
            }
        }
    }
}

/// Each row of the file from record `r` on names an offset field and carries
/// the reference's own text for it.
proof fn lemma_rows_from_props(m: MbeModel, r: int)
    requires
        wf_mbe(m),
    ensures
        forall|i: int| 0 <= i < rows_from(m, r).len() ==> edit_ok(m, #[trigger] rows_from(m,
            r)[i]),
        forall|i: int| 0 <= i < rows_from(m, r).len() ==> (#[trigger] rows_from(m, r)[i]).text
            == m.pool[edit_target(m, rows_from(m, r)[i])],
    decreases m.records.len() - r,
{
    if 0 <= r < m.records.len() {
        lemma_row_fields_props(m, r, 0);
        lemma_rows_from_props(m, r + 1);
        let head = row_fields(m, r, 0);
        let tail = rows_from(m, r + 1);
        assert forall|i: int| 0 <= i < rows_from(m, r).len() implies edit_ok(m, #[trigger]
        rows_from(m, r)[i]) && rows_from(m, r)[i].text == m.pool[edit_target(m, rows_from(m,
            r)[i])] by {
            if i < head.len() {
                assert(rows_from(m, r)[i] == head[i]);
            } else {
                assert(rows_from(m, r)[i] == tail[i - head.len()]);
            }
        }
    }
}

/// The rows extracted from a file are identity edits: every one names an
/// offset field of the file and carries the text that field already stores.
pub proof fn lemma_rows_identity(m: MbeModel)
    requires
        wf_mbe(m),
    ensures
        forall|i: int| 0 <= i < rows_of(m).len() ==> edit_ok(m, #[trigger] rows_of(m)[i]),
        forall|i: int| 0 <= i < rows_of(m).len() ==> (#[trigger] rows_of(m)[i]).text
            == m.pool[edit_target(m, rows_of(m)[i])],
        crate::edits::edits_ok(m, rows_of(m)),
    decreases m.records.len(),
{
    lemma_rows_from_props(m, 0);
    assert forall|i: int, j: int| 0 <= i < rows_of(m).len() && 0 <= j < rows_of(
        m)[i].text.len() implies (#[trigger] rows_of(m)[i].text[j]) != 0 by {
        assert(rows_of(m)[i].text == m.pool[edit_target(m, rows_of(m)[i])]);
        assert(edit_ok(m, rows_of(m)[i]));
        assert(crate::mbe::field_matches(m.kinds[rows_of(m)[i].field],
            m.records[rows_of(m)[i].record][rows_of(m)[i].field], m.pool.len() as int));
    }
}

/// Walks a decoded file and collects one row per offset field, in
/// record-major, field order, each carrying the stored text.
pub fn extract_rows(m: &MbeFile) -> (r: Vec<Edit>)
    requires
        wf_mbe(m@),
    ensures
        view_edits(r@) == rows_of(m@),
{
    let ghost model = m@;
    let mut out: Vec<Edit> = Vec::new();
    let mut rr: usize = 0;
    while rr < m.records.len()
        invariant
            rr <= m.records@.len(),
            model == m@,
            wf_mbe(model),
            view_edits(out@) + rows_from(model, rr as int) =~= rows_of(model),
        decreases m.records@.len() - rr,
    {
        proof {
            assert(model.records[rr as int].len() == model.kinds.len());
            assert(model.records[rr as int] == m.records@[rr as int]@);
        }
        let mut f: usize = 0;
        while f < m.records[rr].len()
            invariant
                rr < m.records@.len(),
                f <= model.kinds.len(),
                model == m@,
                wf_mbe(model),
                m.records@[rr as int]@.len() == model.kinds.len(),
                view_edits(out@) + row_fields(model, rr as int, f as int) + rows_from(model,
                    rr + 1) =~= rows_of(model),
            decreases model.kinds.len() - f,
        {
            let ghost oout = view_edits(out@);
            proof {
                assert(crate::mbe::field_matches(model.kinds[f as int], model.records[
                    rr as int][f as int], model.pool.len() as int));
            }
            match m.records[rr][f] {
                FieldVal::Scalar(_) => {
                    proof {
                        assert(row_fields(model, rr as int, f as int) =~= row_fields(model,
                            rr as int, f + 1));
                    }
                },
                FieldVal::Text(k) => {
                    let text = copy_bytes(&m.pool[k]);
                    out.push(Edit { record: rr, field: f, text });
                    proof {
                        assert(view_edits(out@).drop_last() =~= oout);
                        assert(view_edits(out@).last() == out@.last()@);
                        assert(out@.last()@ =~= EditModel {
                            record: rr as int,
                            field: f as int,
                            text: model.pool[k as int],
                        });
                        assert(row_fields(model, rr as int, f as int) =~= seq![out@.last()@]
                            + row_fields(model, rr as int, f + 1));
                        assert(view_edits(out@) + row_fields(model, rr as int, f + 1)
                            + rows_from(model, rr + 1) =~= oout + row_fields(model, rr as int,
                            f as int) + rows_from(model, rr + 1));
                    }
                },
            }
            f = f + 1;
        }
        proof {
            assert(row_fields(model, rr as int, model.kinds.len() as int)
                =~= Seq::<EditModel>::empty());
            assert(rows_from(model, rr as int) =~= row_fields(model, rr as int, 0) + rows_from(
                model, rr + 1));
        }
        rr = rr + 1;
    }
    proof {
        assert(rows_from(model, m.records@.len() as int) =~= Seq::<EditModel>::empty());
        assert(view_edits(out@) =~= rows_of(model));
    }
    out
}

/// The stable key of one dialogue row: the entry name, the record index and
/// the field index, separated by colons. The same logical line gets the same
/// key in every language's archive, which is what aligns the table's
/// columns.
pub open spec fn make_key_spec(name: Seq<u8>, r: nat, f: nat) -> Seq<u8> {
    name + seq![58u8] + dec_bytes(r) + seq![58u8] + dec_bytes(f)
}

/// Renders the stable key of one dialogue row.
pub fn make_key(name: &Vec<u8>, r: u32, f: u32) -> (out: Vec<u8>)
    ensures
        out@ == make_key_spec(name@, r as nat, f as nat),
{
    let mut out = copy_bytes(name);
    out.push(58);
    let rd = u32_to_dec(r);
    push_bytes(&mut out, &rd);
    out.push(58);
    let fd = u32_to_dec(f);
    push_bytes(&mut out, &fd);
    assert(out@ =~= make_key_spec(name@, r as nat, f as nat));
    out
}

/// Finds the first key equal to `key`.
fn find_key(keys: &Vec<Vec<u8>>, key: &Vec<u8>) -> (r: Option<usize>)
    ensures
        match r {
            Some(i) => i < keys@.len() && keys@[i as int]@ == key@,
            None => forall|j: int| 0 <= j < keys@.len() ==> (#[trigger] keys@[j])@ != key@,
        },
{
    let mut i: usize = 0;
    while i < keys.len()
        invariant
            i <= keys@.len(),
            forall|j: int| 0 <= j < i ==> (#[trigger] keys@[j])@ != key@,
        decreases keys@.len() - i,
    {
        if crate::bytes::bytes_eq(&keys[i], key) {
            return Some(i);
        }
        i = i + 1;
    }
    None
}

/// Finds the first keyed pair whose key equals `key`.
fn find_pair(pairs: &Vec<(Vec<u8>, Vec<u8>)>, key: &Vec<u8>) -> (r: Option<usize>)
    ensures
        match r {
            Some(i) => i < pairs@.len() && pairs@[i as int].0@ == key@,
            None => forall|j: int| 0 <= j < pairs@.len() ==> (#[trigger] pairs@[j]).0@ != key@,
        },
{
    let mut i: usize = 0;
    while i < pairs.len()
        invariant
            i <= pairs@.len(),
            forall|j: int| 0 <= j < i ==> (#[trigger] pairs@[j]).0@ != key@,
        decreases pairs@.len() - i,
    {
        if crate::bytes::bytes_eq(&pairs[i].0, key) {
            return Some(i);
        }
        i = i + 1;
    }
    None
}

/// Extracts the dialogue table from one or more language archives.
///
/// Each input pairs a language name with the complete bytes of that
/// language's archive (a patch archive is merged over its base at the entry
/// level before this is called). Every record file inside each archive is
/// decoded and contributes one row per offset field, keyed by entry name,
/// record and field, so that the same logical line lands in the same row
/// across languages, whatever order the languages yield the keys in; a
/// language that lacks a key leaves that cell empty, not absent. Row order
/// is the order keys are first seen, language by language. Fails fast, with
/// no partial result, if any archive or record file cannot be decoded, and
/// with `MalformedTable` only when one language genuinely yields the same
/// key twice.
pub fn extract_table(inputs: &Vec<(Vec<u8>, Vec<u8>)>) -> (r: Result<
    crate::table::DialogueTable,
    crate::errors::CodecError,
>)
    ensures
        match r {
            Ok(t) => {
                &&& crate::table::wf_table(t@)
                &&& t@.languages.len() == inputs@.len()
                &&& forall|i: int| 0 <= i < inputs@.len() ==> t@.languages[i] == (
                #[trigger] inputs@[i]).0@
            },
            Err(_) => true,
        },
{
    // First pass: per language, every (key, text) pair in extraction order.
    let mut lang_pairs: Vec<Vec<(Vec<u8>, Vec<u8>)>> = Vec::new();
    let mut li: usize = 0;
    while li < inputs.len()
        invariant
            li <= inputs@.len(),
            lang_pairs@.len() == li,
        decreases inputs@.len() - li,
    {
        let mut pairs: Vec<(Vec<u8>, Vec<u8>)> = Vec::new();
        let entries = match crate::mvgl::unpack_archive(&inputs[li].1) {
            Ok(es) => es,
            Err(e) => { return Err(e); },
        };
        let mut ei: usize = 0;
        while ei < entries.len()
            decreases entries@.len() - ei,
        {
            if crate::repack::name_is_mbe(&entries[ei].name) {
                let mut cur = crate::cursor::Cursor::new();
                let file = match crate::mbe::parse_mbe(&entries[ei].data, &mut cur) {
                    Ok(f) => f,
                    Err(e) => { return Err(e); },
                };
                let rows = extract_rows(&file);
                let mut ri: usize = 0;
                while ri < rows.len()
                    invariant
                        ri <= rows@.len(),
                        ei < entries@.len(),
                    decreases rows@.len() - ri,
                {
                    let key = make_key(&entries[ei].name, rows[ri].record as u32,
                        rows[ri].field as u32);
                    // The same language must not define one key twice.
                    match find_pair(&pairs, &key) {
                        Some(_) => { return Err(crate::errors::CodecError::MalformedTable); },
                        None => {},
                    }
                    let text = crate::bytes::copy_bytes(&rows[ri].text);
                    pairs.push((key, text));
                    ri = ri + 1;
                }
            }
            ei = ei + 1;
        }
        lang_pairs.push(pairs);
        li = li + 1;
    }

    // Second pass: the row keys, in the order they are first seen.
    let mut keys: Vec<Vec<u8>> = Vec::new();
    let mut li2: usize = 0;
    while li2 < lang_pairs.len()
        invariant
            li2 <= lang_pairs@.len(),
            forall|a: int, b: int| 0 <= a < keys@.len() && 0 <= b < keys@.len() && a != b ==> (
            #[trigger] keys@[a])@ != (#[trigger] keys@[b])@,
        decreases lang_pairs@.len() - li2,
    {
        let mut p: usize = 0;
        while p < lang_pairs[li2].len()
            invariant
                li2 < lang_pairs@.len(),
                p <= lang_pairs@[li2 as int]@.len(),
                forall|a: int, b: int| 0 <= a < keys@.len() && 0 <= b < keys@.len() && a != b
                    ==> (#[trigger] keys@[a])@ != (#[trigger] keys@[b])@,
            decreases lang_pairs@[li2 as int]@.len() - p,
        {
            match find_key(&keys, &lang_pairs[li2][p].0) {
                Some(_) => {},
                None => {
                    let key = crate::bytes::copy_bytes(&lang_pairs[li2][p].0);
                    keys.push(key);
                    proof {
                        assert forall|a: int, b: int| 0 <= a < keys@.len() && 0 <= b
                            < keys@.len() && a != b implies (#[trigger] keys@[a])@ != (
                        #[trigger] keys@[b])@ by {
                            if a == keys@.len() - 1 {
                                assert(keys@[b]@ != keys@[a]@);
                            } else if b == keys@.len() - 1 {
                                assert(keys@[a]@ != keys@[b]@);
                            }
                        }
                    }
                },
            }
            p = p + 1;
        }
        li2 = li2 + 1;
    }

    // Third pass: one row per key, one cell per language, empty where a
    // language lacks the key.
    let mut trows: Vec<crate::table::Row> = Vec::new();
    let mut k: usize = 0;
    while k < keys.len()
        invariant
            k <= keys@.len(),
            lang_pairs@.len() == inputs@.len(),
            trows@.len() == k,
            forall|a: int, b: int| 0 <= a < keys@.len() && 0 <= b < keys@.len() && a != b ==> (
            #[trigger] keys@[a])@ != (#[trigger] keys@[b])@,
            forall|q: int| 0 <= q < k ==> (#[trigger] trows@[q])@.key == keys@[q]@,
            forall|q: int| 0 <= q < k ==> (#[trigger] trows@[q])@.cells.len()
                == inputs@.len() as int,
        decreases keys@.len() - k,
    {
        let mut cells: Vec<Vec<u8>> = Vec::new();
        let mut li3: usize = 0;
        while li3 < lang_pairs.len()
            invariant
                li3 <= lang_pairs@.len(),
                k < keys@.len(),
                cells@.len() == li3,
            decreases lang_pairs@.len() - li3,
        {
            match find_pair(&lang_pairs[li3], &keys[k]) {
                Some(p2) => {
                    let c = crate::bytes::copy_bytes(&lang_pairs[li3][p2].1);
                    cells.push(c);
                },
                None => {
                    let empty: Vec<u8> = Vec::new();
                    cells.push(empty);
                },
            }
            li3 = li3 + 1;
        }
        let rkey = crate::bytes::copy_bytes(&keys[k]);
        trows.push(crate::table::Row { key: rkey, cells });
        k = k + 1;
    }
    let mut languages: Vec<Vec<u8>> = Vec::new();
    let mut li4: usize = 0;
    while li4 < inputs.len()
        invariant
            li4 <= inputs@.len(),
            languages@.len() == li4,
            forall|q: int| 0 <= q < li4 ==> (#[trigger] languages@[q])@ == inputs@[q].0@,
        decreases inputs@.len() - li4,
    {
        let name = crate::bytes::copy_bytes(&inputs[li4].0);
        languages.push(name);
        li4 = li4 + 1;
    }
    let t = crate::table::DialogueTable { languages, rows: trows };
    proof {
        assert forall|i: int| 0 <= i < t@.rows.len() implies (#[trigger] t@.rows[i]).cells.len()
            == t@.languages.len() by {
            assert(t@.rows[i] == trows@[i]@);
        }
        assert forall|i: int, j: int| 0 <= i < t@.rows.len() && 0 <= j < t@.rows.len() && i != j
            implies (#[trigger] t@.rows[i]).key != (#[trigger] t@.rows[j]).key by {
            assert(t@.rows[i] == trows@[i]@);
            assert(t@.rows[j] == trows@[j]@);
            assert(trows@[i]@.key == keys@[i]@);
            assert(trows@[j]@.key == keys@[j]@);
        }
        assert(crate::table::wf_table(t@));
    }
    Ok(t)
}

} // verus!
