use vstd::prelude::*;

use crate::bytes::copy_bytes;
use crate::errors::CodecError;
use crate::mbe::{
    build_mbe, field_bytes, mbe_bytes, pool_end, pool_size, view_texts, wf_mbe, FieldKind,
    FieldVal, MbeFile, MbeModel, lemma_pool_prefix_le,
};

verus! {

/// One text substitution: the record and field that name an offset field of
/// the reference file, and the replacement text.
pub struct Edit {
    pub record: usize,
    pub field: usize,
    pub text: Vec<u8>,
}

/// The mathematical model of an edit.
#[verifier::ext_equal]
pub ghost struct EditModel {
    pub record: int,
    pub field: int,
    pub text: Seq<u8>,
}

impl View for Edit {
    type V = EditModel;

    open spec fn view(&self) -> EditModel {
        EditModel { record: self.record as int, field: self.field as int, text: self.text@ }
    }
}

/// The models of a sequence of edits.
pub open spec fn view_edits(es: Seq<Edit>) -> Seq<EditModel> {
    es.map_values(|e: Edit| e@)
}

/// Whether an edit names an offset field that the file has.
pub open spec fn edit_ok(m: MbeModel, e: EditModel) -> bool {
    &&& 0 <= e.record < m.records.len()
    &&& 0 <= e.field < m.kinds.len()
    &&& (m.records[e.record][e.field] matches FieldVal::Text(_))
}

/// The pool slot an edit replaces.
pub open spec fn edit_target(m: MbeModel, e: EditModel) -> int
    recommends
        edit_ok(m, e),
{
    match m.records[e.record][e.field] {
        FieldVal::Text(k) => k as int,
        FieldVal::Scalar(_) => -1,
    }
}

/// Whether every edit names an offset field and carries a text the format
/// can store.
pub open spec fn edits_ok(m: MbeModel, es: Seq<EditModel>) -> bool {
    &&& forall|i: int| 0 <= i < es.len() ==> edit_ok(m, #[trigger] es[i])
    &&& forall|i: int, j: int| 0 <= i < es.len() && 0 <= j < es[i].text.len() ==> (
    #[trigger] es[i].text[j]) != 0
}

/// The index of the last edit that targets pool slot `k`, or a negative
/// value when none does.
pub open spec fn last_edit_for(m: MbeModel, es: Seq<EditModel>, k: int) -> int
    decreases es.len(),
{
    if es.len() == 0 {
        -1
    } else if edit_target(m, es.last()) == k {
        es.len() - 1
    } else {
        last_edit_for(m, es.drop_last(), k)
    }
}

/// A found last edit lies in range and targets the slot.
pub proof fn lemma_last_edit_valid(m: MbeModel, es: Seq<EditModel>, k: int)
    ensures
        last_edit_for(m, es, k) >= 0 ==> {
            &&& last_edit_for(m, es, k) < es.len()
            &&& edit_target(m, es[last_edit_for(m, es, k)]) == k
        },
    decreases es.len(),
{
    if es.len() > 0 && edit_target(m, es.last()) != k {
        lemma_last_edit_valid(m, es.drop_last(), k);
    }
}

/// The pool after the edits: each slot holds the text of the last edit that
/// targets it, or its reference text where no edit does.
pub open spec fn edited_pool(m: MbeModel, es: Seq<EditModel>) -> Seq<Seq<u8>> {
    Seq::new(m.pool.len(), |k: int| if last_edit_for(m, es, k) >= 0 {
        es[last_edit_for(m, es, k)].text
    } else {
        m.pool[k]
    })
}

/// The file after the edits: the same layout, the same records with their
/// aliasing structure, and the edited pool. Only the stored strings change;
/// offsets are recomputed when the file is re-encoded.
pub open spec fn apply_edits_spec(m: MbeModel, es: Seq<EditModel>) -> MbeModel {
    MbeModel { kinds: m.kinds, records: m.records, pool: edited_pool(m, es) }
}

/// Substituting every text with the text the reference already stores leaves
/// the file unchanged: a table extracted from a reference and written back
/// unedited describes the reference itself.
pub proof fn lemma_identity_edits(m: MbeModel, es: Seq<EditModel>)
    requires
        forall|i: int| 0 <= i < es.len() ==> edit_ok(m, #[trigger] es[i]),
        forall|i: int| 0 <= i < es.len() ==> (#[trigger] es[i]).text == m.pool[edit_target(m,
            es[i])],
    ensures
        apply_edits_spec(m, es) == m,
{
    assert forall|k: int| 0 <= k < m.pool.len() implies edited_pool(m, es)[k] == m.pool[k] by {
        let l = last_edit_for(m, es, k);
        if l >= 0 {
            lemma_last_edit_valid(m, es, k);
            assert(es[l].text == m.pool[edit_target(m, es[l])]);
        }
    }
    assert(edited_pool(m, es) =~= m.pool);
    assert(apply_edits_spec(m, es) =~= m);
}

/// Aliasing preservation: two offset fields that shared one stored string in
/// the reference still share it after any edits — the records are untouched,
/// so both still name the same pool slot and re-encode to the same wire
/// offset value.
pub proof fn lemma_aliasing_preserved(
    m: MbeModel,
    es: Seq<EditModel>,
    r1: int,
    f1: int,
    r2: int,
    f2: int,
)
    requires
        0 <= r1 < m.records.len(),
        0 <= r2 < m.records.len(),
        0 <= f1 < m.records[r1].len(),
        0 <= f2 < m.records[r2].len(),
        m.records[r1][f1] == m.records[r2][f2],
    ensures
        apply_edits_spec(m, es).records[r1][f1] == apply_edits_spec(m, es).records[r2][f2],
        field_bytes(apply_edits_spec(m, es).records[r1][f1], edited_pool(m, es)) == field_bytes(
            apply_edits_spec(m, es).records[r2][f2], edited_pool(m, es)),
{
}

/// How the prefix sums of the data region change when one stored string is
/// replaced.
proof fn lemma_pool_size_update_prefix(pool: Seq<Seq<u8>>, k: int, t: Seq<u8>, j: int)
    requires
        0 <= k < pool.len(),
        0 <= j <= pool.len(),
    ensures
        pool_size(pool.update(k, t).subrange(0, j)) == pool_size(pool.subrange(0, j)) + if j > k {
            t.len() - pool[k].len()
        } else {
            0
        },
    decreases j,
{
    if j > 0 {
        lemma_pool_size_update_prefix(pool, k, t, j - 1);
        assert(pool.update(k, t).subrange(0, j).drop_last() =~= pool.update(k, t).subrange(0,
            j - 1));
        assert(pool.subrange(0, j).drop_last() =~= pool.subrange(0, j - 1));
        assert(pool.update(k, t).subrange(0, j).last() == pool.update(k, t)[j - 1]);
        assert(pool.subrange(0, j).last() == pool[j - 1]);
    } else {
        assert(pool.update(k, t).subrange(0, 0) =~= pool.subrange(0, 0));
    }
}

/// Text-length invariance at the region level: replacing stored string `k`
/// leaves the end offset of every string before `k` unchanged and shifts the
/// end offset of string `k` and of every later string by exactly the length
/// delta; the region's total size moves by the same delta.
pub proof fn lemma_text_relocation(pool: Seq<Seq<u8>>, k: int, t: Seq<u8>)
    requires
        0 <= k < pool.len(),
    ensures
        pool_size(pool.update(k, t)) == pool_size(pool) + t.len() - pool[k].len(),
        forall|i: int| 0 <= i < k ==> #[trigger] pool_end(pool.update(k, t), i) == pool_end(pool,
            i),
        forall|i: int| k <= i < pool.len() ==> #[trigger] pool_end(pool.update(k, t), i)
            == pool_end(pool, i) + t.len() - pool[k].len(),
{
    lemma_pool_size_update_prefix(pool, k, t, pool.len() as int);
    assert(pool.update(k, t).subrange(0, pool.len() as int) =~= pool.update(k, t));
    assert(pool.subrange(0, pool.len() as int) =~= pool);
    assert forall|i: int| 0 <= i < k implies #[trigger] pool_end(pool.update(k, t), i)
        == pool_end(pool, i) by {
        lemma_pool_size_update_prefix(pool, k, t, i + 1);
    }
    assert forall|i: int| k <= i < pool.len() implies #[trigger] pool_end(pool.update(k, t), i)
        == pool_end(pool, i) + t.len() - pool[k].len() by {
        lemma_pool_size_update_prefix(pool, k, t, i + 1);
    }
}

/// Text-length invariance at the field level: after substituting stored
/// string `k`, a scalar field keeps its bytes, an offset field pointing
/// before `k` keeps its bytes, and an offset field pointing at `k` or later
/// moves by exactly the length delta.
pub proof fn lemma_field_relocation(m: MbeModel, k: int, t: Seq<u8>, r: int, f: int)
    requires
        wf_mbe(m),
        0 <= k < m.pool.len(),
        0 <= r < m.records.len(),
        0 <= f < m.kinds.len(),
    ensures
        match m.records[r][f] {
            FieldVal::Scalar(_) => field_bytes(m.records[r][f], m.pool.update(k, t))
                == field_bytes(m.records[r][f], m.pool),
            FieldVal::Text(idx) => if (idx as int) < k {
                field_bytes(m.records[r][f], m.pool.update(k, t)) == field_bytes(m.records[r][f],
                    m.pool)
            } else {
                pool_end(m.pool.update(k, t), idx as int) == pool_end(m.pool, idx as int)
                    + t.len() - m.pool[k].len()
            },
        },
{
    lemma_text_relocation(m.pool, k, t);
    assert(crate::mbe::field_matches(m.kinds[f], m.records[r][f], m.pool.len() as int));
}

/// Applies a table's substitutions to a decoded file and re-encodes it,
/// recomputing the whole data region and every offset field.
///
/// Fail-fast and atomic: an edit that names a record, field or offset field
/// the file does not have fails with `UnknownRow`; a replacement text the
/// format cannot store (a terminator byte inside it, or a data region larger
/// than its size field can say) fails with `MalformedTable`; nothing is
/// emitted on error, and the file itself is never changed. Success is owed
/// exactly when every edit is addressable and storable.
pub fn rebuild_mbe(m: &MbeFile, edits: &Vec<Edit>) -> (r: Result<Vec<u8>, CodecError>)
    requires
        wf_mbe(m@),
    ensures
        match r {
            Ok(out) => {
                &&& edits_ok(m@, view_edits(edits@))
                &&& pool_size(edited_pool(m@, view_edits(edits@))) <= 0xffff_ffff
                &&& out@ == mbe_bytes(apply_edits_spec(m@, view_edits(edits@)))
            },
            Err(e) => {
                &&& !(edits_ok(m@, view_edits(edits@)) && pool_size(edited_pool(m@, view_edits(
                    edits@))) <= 0xffff_ffff)
                &&& (e == CodecError::UnknownRow || e == CodecError::MalformedTable)
            },
        },
{
    let ghost model = m@;
    let ghost ve = view_edits(edits@);

    // Validation: every edit must name an offset field and carry a storable
    // text.
    let mut i: usize = 0;
    while i < edits.len()
        invariant
            i <= edits@.len(),
            model == m@,
            wf_mbe(model),
            ve == view_edits(edits@),
            forall|j: int| 0 <= j < i ==> edit_ok(model, #[trigger] ve[j]),
            forall|j: int, t: int| 0 <= j < i && 0 <= t < ve[j].text.len() ==> (
            #[trigger] ve[j].text[t]) != 0,
        decreases edits@.len() - i,
    {
        let e = &edits[i];
        if e.record >= m.records.len() || e.field >= m.kinds.len() {
            proof {
                assert(!edit_ok(model, ve[i as int]));
            }
            return Err(CodecError::UnknownRow);
        }
        proof {
            assert(model.records[e.record as int].len() == model.kinds.len());
        }
        match m.records[e.record][e.field] {
            FieldVal::Text(_) => {},
            FieldVal::Scalar(_) => {
                proof {
                    assert(!edit_ok(model, ve[i as int]));
                }
                return Err(CodecError::UnknownRow);
            },
        }
        let mut t: usize = 0;
        while t < e.text.len()
            invariant
                t <= e.text@.len(),
                ve == view_edits(edits@),
                i < edits@.len(),
                e.text@ == ve[i as int].text,
                forall|j: int| 0 <= j < t ==> (#[trigger] e.text@[j]) != 0,
            decreases e.text@.len() - t,
        {
            if e.text[t] == 0 {
                proof {
                    assert(ve[i as int].text[t as int] == 0);
                }
                return Err(CodecError::MalformedTable);
            }
            t = t + 1;
        }
        i = i + 1;
    }

    // The edited pool: for each slot, the last edit that targets it wins.
    let ghost target_pool = edited_pool(model, ve);
    let mut new_pool: Vec<Vec<u8>> = Vec::new();
    let mut total: u64 = 0;
    let mut k: usize = 0;
    while k < m.pool.len()
        invariant
            k <= m.pool@.len(),
            model == m@,
            wf_mbe(model),
            ve == view_edits(edits@),
            target_pool == edited_pool(model, ve),
            edits_ok(model, ve),
            new_pool@.len() == k,
            view_texts(new_pool@) =~= target_pool.subrange(0, k as int),
            total as int == pool_size(target_pool.subrange(0, k as int)),
            total <= 0xffff_ffff,
        decreases m.pool@.len() - k,
    {
        // Find the last edit that targets slot k.
        let mut sel: Option<usize> = None;
        let mut j: usize = 0;
        while j < edits.len()
            invariant
                j <= edits@.len(),
                model == m@,
                wf_mbe(model),
                ve == view_edits(edits@),
                edits_ok(model, ve),
                k < m.pool@.len(),
                match sel {
                    Some(s) => s < edits@.len() && last_edit_for(model, ve.subrange(0, j as int),
                        k as int) == s as int,
                    None => last_edit_for(model, ve.subrange(0, j as int), k as int) < 0,
                },
            decreases edits@.len() - j,
        {
            let e = &edits[j];
            proof {
                assert(edit_ok(model, ve[j as int]));
                assert(model.records[e.record as int].len() == model.kinds.len());
                assert(ve.subrange(0, j + 1).drop_last() =~= ve.subrange(0, j as int));
                assert(ve.subrange(0, j + 1).last() == ve[j as int]);
            }
            let hit = match m.records[e.record][e.field] {
                FieldVal::Text(kk) => kk == k,
                FieldVal::Scalar(_) => false,
            };
            if hit {
                sel = Some(j);
            }
            proof {
                assert(hit == (edit_target(model, ve[j as int]) == k as int));
            }
            j = j + 1;
        }
        proof {
            assert(ve.subrange(0, edits@.len() as int) =~= ve);
        }
        let chosen: Vec<u8> = match sel {
            Some(s) => copy_bytes(&edits[s].text),
            None => copy_bytes(&m.pool[k]),
        };
        proof {
            assert(chosen@ == target_pool[k as int]);
        }
        if chosen.len() > 0xffff_ffff {
            proof {
                lemma_pool_prefix_le(target_pool, k + 1);
                assert(target_pool.subrange(0, k + 1).drop_last() =~= target_pool.subrange(0,
                    k as int));
                assert(target_pool.subrange(0, k + 1).last() == target_pool[k as int]);
            }
            return Err(CodecError::MalformedTable);
        }
        let step = chosen.len() as u64 + 1;
        proof {
            lemma_pool_prefix_le(target_pool, k + 1);
            assert(target_pool.subrange(0, k + 1).drop_last() =~= target_pool.subrange(0,
                k as int));
            assert(target_pool.subrange(0, k + 1).last() == target_pool[k as int]);
        }
        if total + step > 0xffff_ffff {
            return Err(CodecError::MalformedTable);
        }
        total = total + step;
        new_pool.push(chosen);
        proof {
            assert(view_texts(new_pool@) =~= target_pool.subrange(0, k + 1));
        }
        k = k + 1;
    }
    proof {
        assert(target_pool.subrange(0, m.pool@.len() as int) =~= target_pool);
    }

    // Rebuild the file around the edited pool; layout and records are kept.
    let mut ck: Vec<FieldKind> = Vec::new();
    let mut f: usize = 0;
    while f < m.kinds.len()
        invariant
            f <= m.kinds@.len(),
            model == m@,
            ck@ =~= model.kinds.subrange(0, f as int),
        decreases m.kinds@.len() - f,
    {
        ck.push(m.kinds[f]);
        assert(ck@ =~= model.kinds.subrange(0, f + 1));
        f = f + 1;
    }
    let mut crs: Vec<Vec<FieldVal>> = Vec::new();
    let mut r: usize = 0;
    while r < m.records.len()
        invariant
            r <= m.records@.len(),
            model == m@,
            crate::mbe::view_recs(crs@) =~= model.records.subrange(0, r as int),
        decreases m.records@.len() - r,
    {
        let mut rr: Vec<FieldVal> = Vec::new();
        let mut f2: usize = 0;
        while f2 < m.records[r].len()
            invariant
                r < m.records@.len(),
                f2 <= m.records@[r as int]@.len(),
                model == m@,
                rr@ =~= model.records[r as int].subrange(0, f2 as int),
            decreases m.records@[r as int]@.len() - f2,
        {
            rr.push(m.records[r][f2]);
            assert(rr@ =~= model.records[r as int].subrange(0, f2 + 1));
            f2 = f2 + 1;
        }
        proof {
            assert(model.records[r as int].subrange(0, model.records[r as int].len() as int)
                =~= model.records[r as int]);
        }
        let ghost ocrs = crate::mbe::view_recs(crs@);
        proof {
            assert(rr@ =~= model.records[r as int]);
        }
        crs.push(rr);
        proof {
            assert(crate::mbe::view_recs(crs@).drop_last() =~= ocrs);
            assert(crate::mbe::view_recs(crs@).last() == crs@.last()@);
            assert(crate::mbe::view_recs(crs@) =~= model.records.subrange(0, r + 1));
        }
        r = r + 1;
    }
    proof {
        assert(model.kinds.subrange(0, m.kinds@.len() as int) =~= model.kinds);
        assert(model.records.subrange(0, m.records@.len() as int) =~= model.records);
    }
    let m2 = MbeFile { kinds: ck, records: crs, pool: new_pool };
    proof {
        assert(m2@ =~= apply_edits_spec(model, ve));
        assert forall|k2: int, j2: int| 0 <= k2 < target_pool.len() && 0 <= j2 < target_pool[
            k2].len() implies (#[trigger] target_pool[k2][j2]) != 0 by {
            let l = last_edit_for(model, ve, k2);
            if l >= 0 {
                lemma_last_edit_valid(model, ve, k2);
                assert(ve[l].text[j2] != 0);
            } else {
                assert(model.pool[k2][j2] != 0);
            }
        }
        assert forall|r2: int, f3: int| 0 <= r2 < m2@.records.len() && 0 <= f3
            < m2@.kinds.len() implies crate::mbe::field_matches(m2@.kinds[f3],
            #[trigger] m2@.records[r2][f3], m2@.pool.len() as int) by {
            assert(crate::mbe::field_matches(model.kinds[f3], model.records[r2][f3],
                model.pool.len() as int));
        }
        assert(wf_mbe(m2@));
    }
    let out = build_mbe(&m2);
    Ok(out)
}

} // verus!
