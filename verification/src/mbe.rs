use vstd::prelude::*;

use crate::bytes::{u32_le, push_u32_le, push_bytes};
use crate::cursor::Cursor;
use crate::errors::CodecError;

verus! {

/// The declared layout of one field of every record in a file.
#[derive(Clone, Copy, Debug, PartialEq, Eq, Structural)]
pub enum FieldKind {
    /// Four bytes copied verbatim.
    Scalar,
    /// Four bytes holding an offset into the trailing data region.
    Text,
}

/// One decoded field of a record.
///
/// A text field does not hold the raw offset but the index of the string it
/// points at in the file's string pool, so that two fields that alias one
/// stored string hold the same index.
#[derive(Clone, Copy, Debug, PartialEq, Eq, Structural)]
pub enum FieldVal {
    Scalar(u32),
    Text(usize),
}

/// One decoded MBE file: the field layout, the records, and the pool of
/// strings stored in the trailing data region, in order of first reference.
pub struct MbeFile {
    pub kinds: Vec<FieldKind>,
    pub records: Vec<Vec<FieldVal>>,
    pub pool: Vec<Vec<u8>>,
}

/// The mathematical model of an MBE file.
#[verifier::ext_equal]
pub ghost struct MbeModel {
    pub kinds: Seq<FieldKind>,
    pub records: Seq<Seq<FieldVal>>,
    pub pool: Seq<Seq<u8>>,
}

impl View for MbeFile {
    type V = MbeModel;

    open spec fn view(&self) -> MbeModel {
        MbeModel {
            kinds: self.kinds@,
            records: self.records@.map_values(|r: Vec<FieldVal>| r@),
            pool: self.pool@.map_values(|t: Vec<u8>| t@),
        }
    }
}

/// The four magic bytes that open an MBE file.
pub open spec fn mbe_magic() -> Seq<u8> {
    seq![77u8, 66u8, 69u8, 49u8]
}

/// The byte size of the data region holding these pool strings: each string
/// is stored once, terminated by a single zero byte.
pub open spec fn pool_size(pool: Seq<Seq<u8>>) -> int
    decreases pool.len(),
{
    if pool.len() == 0 {
        0
    } else {
        pool_size(pool.drop_last()) + pool.last().len() + 1
    }
}

/// The offset just past pool string `k`'s terminator, relative to the start
/// of the data region. This is the value an offset field pointing at string
/// `k` carries on the wire.
pub open spec fn pool_end(pool: Seq<Seq<u8>>, k: int) -> int {
    pool_size(pool.subrange(0, k + 1))
}

/// The data region: every pool string in order, each followed by its
/// terminator, with no gaps.
pub open spec fn region_bytes(pool: Seq<Seq<u8>>) -> Seq<u8>
    decreases pool.len(),
{
    if pool.len() == 0 {
        Seq::<u8>::empty()
    } else {
        region_bytes(pool.drop_last()) + pool.last() + seq![0u8]
    }
}

/// The wire bytes of one field.
pub open spec fn field_bytes(v: FieldVal, pool: Seq<Seq<u8>>) -> Seq<u8> {
    match v {
        FieldVal::Scalar(x) => u32_le(x),
        FieldVal::Text(k) => u32_le(pool_end(pool, k as int) as u32),
    }
}

/// The wire bytes of one record: its fields in order.
pub open spec fn record_bytes(r: Seq<FieldVal>, pool: Seq<Seq<u8>>) -> Seq<u8>
    decreases r.len(),
{
    if r.len() == 0 {
        Seq::<u8>::empty()
    } else {
        record_bytes(r.drop_last(), pool) + field_bytes(r.last(), pool)
    }
}

/// The wire bytes of all records, in order.
pub open spec fn records_bytes(rs: Seq<Seq<FieldVal>>, pool: Seq<Seq<u8>>) -> Seq<u8>
    decreases rs.len(),
{
    if rs.len() == 0 {
        Seq::<u8>::empty()
    } else {
        records_bytes(rs.drop_last(), pool) + record_bytes(rs.last(), pool)
    }
}

/// The byte a field kind is declared with in the header.
pub open spec fn kind_byte(k: FieldKind) -> u8 {
    match k {
        FieldKind::Scalar => 0,
        FieldKind::Text => 1,
    }
}

/// The header's field-kind descriptor: one byte per field.
pub open spec fn kinds_bytes(ks: Seq<FieldKind>) -> Seq<u8>
    decreases ks.len(),
{
    if ks.len() == 0 {
        Seq::<u8>::empty()
    } else {
        kinds_bytes(ks.drop_last()) + seq![kind_byte(ks.last())]
    }
}

/// The complete wire form of an MBE file: magic, field count, field kinds,
/// record count, the fixed-layout records, the declared size of the data
/// region, and the region itself.
pub open spec fn mbe_bytes(m: MbeModel) -> Seq<u8> {
    mbe_magic() + u32_le(m.kinds.len() as u32) + kinds_bytes(m.kinds) + u32_le(
        m.records.len() as u32) + records_bytes(m.records, m.pool) + u32_le(
        pool_size(m.pool) as u32) + region_bytes(m.pool)
}

/// Whether one field value fits its declared kind: a scalar where a scalar is
/// declared, a pool reference within bounds where a text offset is declared.
pub open spec fn field_matches(k: FieldKind, v: FieldVal, pool_len: int) -> bool {
    match v {
        FieldVal::Scalar(_) => k == FieldKind::Scalar,
        FieldVal::Text(idx) => k == FieldKind::Text && (idx as int) < pool_len,
    }
}

/// Well-formedness of a decoded file: counts fit their header fields, every
/// record has the declared layout, every text field points into the pool, and
/// no pool string contains the terminator byte.
pub open spec fn wf_mbe(m: MbeModel) -> bool {
    &&& m.kinds.len() <= 0xffff_ffff
    &&& m.records.len() <= 0xffff_ffff
    &&& pool_size(m.pool) <= 0xffff_ffff
    &&& forall|r: int| 0 <= r < m.records.len() ==> (#[trigger] m.records[r]).len()
        == m.kinds.len()
    &&& forall|r: int, f: int| 0 <= r < m.records.len() && 0 <= f < m.kinds.len()
        ==> field_matches(m.kinds[f], #[trigger] m.records[r][f], m.pool.len() as int)
    &&& forall|k: int, j: int| 0 <= k < m.pool.len() && 0 <= j < m.pool[k].len()
        ==> (#[trigger] m.pool[k][j]) != 0
}

/// The pool slots a record's offset fields name, in field order.
pub open spec fn refs_of_rec(r: Seq<FieldVal>) -> Seq<int>
    decreases r.len(),
{
    if r.len() == 0 {
        Seq::<int>::empty()
    } else {
        refs_of_rec(r.drop_last()) + (match r.last() {
            FieldVal::Text(k) => seq![k as int],
            FieldVal::Scalar(_) => Seq::<int>::empty(),
        })
    }
}

/// The pool slots all records' offset fields name, in record-major order.
pub open spec fn refs_of_recs(rs: Seq<Seq<FieldVal>>) -> Seq<int>
    decreases rs.len(),
{
    if rs.len() == 0 {
        Seq::<int>::empty()
    } else {
        refs_of_recs(rs.drop_last()) + refs_of_rec(rs.last())
    }
}

/// How many distinct pool slots the first `i` references have introduced,
/// when a fresh slot always appears as the next index.
pub open spec fn seen_count(rs: Seq<int>, i: int) -> int
    decreases i,
{
    if i <= 0 {
        0
    } else {
        let c = seen_count(rs, i - 1);
        if rs[i - 1] == c {
            c + 1
        } else {
            c
        }
    }
}

/// Canonical references: every offset field names either a slot that an
/// earlier field already introduced or the next fresh one, and every pool
/// slot gets introduced.
pub open spec fn canonical_refs(rs: Seq<int>, pool_len: int) -> bool {
    &&& forall|i: int| 0 <= i < rs.len() ==> 0 <= #[trigger] rs[i] <= seen_count(rs, i)
    &&& seen_count(rs, rs.len() as int) == pool_len
}

/// The canonical form of a record file: well-formed, with the string pool in
/// first-reference order and every slot referenced. This is exactly the form
/// `build_mbe` emits and the decoder accepts.
pub open spec fn canonical_mbe(m: MbeModel) -> bool {
    &&& wf_mbe(m)
    &&& canonical_refs(refs_of_recs(m.records), m.pool.len() as int)
}

/// Whether some canonical record file encodes to these bytes.
pub open spec fn mbe_canonical_decodable(b: Seq<u8>) -> bool {
    exists|m: MbeModel| canonical_mbe(m) && (#[trigger] mbe_bytes(m)) == b
}

/// A canonical record file that encodes to these bytes; meaningful whenever
/// `mbe_canonical_decodable` holds.
pub open spec fn decoded_mbe(b: Seq<u8>) -> MbeModel {
    choose|m: MbeModel| canonical_mbe(m) && (#[trigger] mbe_bytes(m)) == b
}

/// `seen_count` reads only the references before `i`.
pub proof fn lemma_seen_count_prefix(a: Seq<int>, b: Seq<int>, i: int)
    requires
        0 <= i,
        i <= a.len(),
        i <= b.len(),
        a.subrange(0, i) == b.subrange(0, i),
    ensures
        seen_count(a, i) == seen_count(b, i),
    decreases i,
{
    if i > 0 {
        assert(a.subrange(0, i - 1) =~= a.subrange(0, i).subrange(0, i - 1));
        assert(b.subrange(0, i - 1) =~= b.subrange(0, i).subrange(0, i - 1));
        lemma_seen_count_prefix(a, b, i - 1);
        assert(a[i - 1] == a.subrange(0, i)[i - 1]);
        assert(b[i - 1] == b.subrange(0, i)[i - 1]);
    }
}

/// Appending one reference that is either already introduced or the next
/// fresh slot keeps the references canonical.
proof fn lemma_canonical_refs_push(cr: Seq<int>, k: int, pool_len: int)
    requires
        forall|i: int| 0 <= i < cr.len() ==> 0 <= #[trigger] cr[i] <= seen_count(cr, i),
        seen_count(cr, cr.len() as int) == pool_len,
        0 <= k <= pool_len,
    ensures
        forall|i: int| 0 <= i < cr.push(k).len() ==> 0 <= #[trigger] cr.push(k)[i]
            <= seen_count(cr.push(k), i),
        seen_count(cr.push(k), cr.push(k).len() as int) == if k == pool_len {
            pool_len + 1
        } else {
            pool_len
        },
{
    assert forall|i: int| 0 <= i <= cr.len() implies #[trigger] seen_count(cr.push(k), i)
        == seen_count(cr, i) by {
        assert(cr.push(k).subrange(0, i) =~= cr.subrange(0, i));
        lemma_seen_count_prefix(cr.push(k), cr, i);
    }
    assert forall|i: int| 0 <= i < cr.push(k).len() implies 0 <= #[trigger] cr.push(k)[i]
        <= seen_count(cr.push(k), i) by {
        if i < cr.len() {
            assert(cr.push(k)[i] == cr[i]);
        } else {
            assert(cr.push(k)[i] == k);
            assert(seen_count(cr.push(k), i) == seen_count(cr, i));
        }
    }
    assert(seen_count(cr.push(k), cr.len() as int) == pool_len);
    assert(cr.push(k)[cr.len() as int] == k);
}

/// Pool prefixes measure monotonically.
pub proof fn lemma_pool_size_mono(pool: Seq<Seq<u8>>, a: int, b: int)
    requires
        0 <= a <= b <= pool.len(),
    ensures
        pool_size(pool.subrange(0, a)) <= pool_size(pool.subrange(0, b)),
    decreases b - a,
{
    if a < b {
        lemma_pool_size_mono(pool, a, b - 1);
        assert(pool.subrange(0, b).drop_last() =~= pool.subrange(0, b - 1));
        assert(pool.subrange(0, b).last() == pool[b - 1]);
    }
}

/// End offsets of distinct pool slots are distinct: each stored string
/// occupies at least its terminator.
pub proof fn lemma_pool_end_increasing(pool: Seq<Seq<u8>>, j: int, k: int)
    requires
        0 <= j < k < pool.len(),
    ensures
        pool_end(pool, j) < pool_end(pool, k),
{
    lemma_pool_size_mono(pool, j + 1, k);
    assert(pool.subrange(0, k + 1).drop_last() =~= pool.subrange(0, k));
    assert(pool.subrange(0, k + 1).last() == pool[k]);
}

/// The basic measurements of the wire form.
pub proof fn lemma_mbe_lens(pool: Seq<Seq<u8>>, ks: Seq<FieldKind>)
    ensures
        pool_size(pool) >= pool.len(),
        region_bytes(pool).len() == pool_size(pool),
        kinds_bytes(ks).len() == ks.len(),
    decreases pool.len() + ks.len(),
{
    if pool.len() > 0 {
        lemma_mbe_lens(pool.drop_last(), ks);
    } else if ks.len() > 0 {
        lemma_mbe_lens(pool, ks.drop_last());
    }
}

/// A pool prefix never measures more than the pool.
pub proof fn lemma_pool_prefix_le(pool: Seq<Seq<u8>>, i: int)
    requires
        0 <= i <= pool.len(),
    ensures
        0 <= pool_size(pool.subrange(0, i)) <= pool_size(pool),
    decreases pool.len() - i,
{
    if i == pool.len() {
        assert(pool.subrange(0, i) =~= pool);
        lemma_mbe_lens(pool, Seq::<FieldKind>::empty());
        lemma_mbe_lens(pool.subrange(0, i), Seq::<FieldKind>::empty());
    } else {
        assert(pool.subrange(0, i + 1).drop_last() =~= pool.subrange(0, i));
        assert(pool.subrange(0, i + 1).last() == pool[i]);
        lemma_pool_prefix_le(pool, i + 1);
        lemma_mbe_lens(pool.subrange(0, i), Seq::<FieldKind>::empty());
    }
}

/// Every pool string's end offset lies within the region, after its start.
pub proof fn lemma_pool_end_bounds(pool: Seq<Seq<u8>>, k: int)
    requires
        0 <= k < pool.len(),
    ensures
        0 < pool_end(pool, k) <= pool_size(pool),
        pool_end(pool, k) == pool_size(pool.subrange(0, k)) + pool[k].len() + 1,
    decreases pool.len(),
{
    lemma_pool_prefix_le(pool, k + 1);
    lemma_pool_prefix_le(pool.subrange(0, k + 1), k);
    assert(pool.subrange(0, k + 1).drop_last() =~= pool.subrange(0, k));
    assert(pool.subrange(0, k + 1).last() == pool[k]);
    lemma_pool_prefix_le(pool, k);
}

/// `pool_end` of an existing string does not change when the pool grows.
pub proof fn lemma_pool_end_extend(pool: Seq<Seq<u8>>, pool2: Seq<Seq<u8>>, k: int)
    requires
        pool.len() <= pool2.len(),
        pool2.subrange(0, pool.len() as int) == pool,
        0 <= k < pool.len(),
    ensures
        pool_end(pool2, k) == pool_end(pool, k),
{
    assert(pool2.subrange(0, k + 1) =~= pool.subrange(0, k + 1));
}

/// A record's wire bytes do not change when the pool grows, as long as every
/// text field of the record points into the part that was already there.
pub proof fn lemma_record_bytes_extend(r: Seq<FieldVal>, pool: Seq<Seq<u8>>, pool2: Seq<Seq<u8>>)
    requires
        pool.len() <= pool2.len(),
        pool2.subrange(0, pool.len() as int) == pool,
        forall|f: int| 0 <= f < r.len() ==> match #[trigger] r[f] {
            FieldVal::Scalar(_) => true,
            FieldVal::Text(idx) => (idx as int) < pool.len(),
        },
    ensures
        record_bytes(r, pool2) == record_bytes(r, pool),
    decreases r.len(),
{
    if r.len() > 0 {
        lemma_record_bytes_extend(r.drop_last(), pool, pool2);
        match r.last() {
            FieldVal::Scalar(_) => {},
            FieldVal::Text(idx) => {
                lemma_pool_end_extend(pool, pool2, idx as int);
            },
        }
    }
}

/// All records' wire bytes do not change when the pool grows, as long as
/// every text field points into the part that was already there.
pub proof fn lemma_records_bytes_extend(
    rs: Seq<Seq<FieldVal>>,
    pool: Seq<Seq<u8>>,
    pool2: Seq<Seq<u8>>,
)
    requires
        pool.len() <= pool2.len(),
        pool2.subrange(0, pool.len() as int) == pool,
        forall|r: int, f: int| 0 <= r < rs.len() && 0 <= f < rs[r].len() ==> match #[trigger]
        rs[r][f] {
            FieldVal::Scalar(_) => true,
            FieldVal::Text(idx) => (idx as int) < pool.len(),
        },
    ensures
        records_bytes(rs, pool2) == records_bytes(rs, pool),
    decreases rs.len(),
{
    if rs.len() > 0 {
        lemma_records_bytes_extend(rs.drop_last(), pool, pool2);
        assert(forall|f: int| 0 <= f < rs.last().len() ==> rs.last()[f]
            == #[trigger] rs[rs.len() - 1][f]);
        lemma_record_bytes_extend(rs.last(), pool, pool2);
    }
}

/// Encodes a decoded file back into its wire form: the exact bytes of
/// `mbe_bytes`, with the data region freshly laid out in pool order and every
/// offset field recomputed from its string's position.
pub fn build_mbe(m: &MbeFile) -> (r: Vec<u8>)
    requires
        wf_mbe(m@),
    ensures
        r@ == mbe_bytes(m@),
{
    let ghost model = m@;
    let ghost pool_v = model.pool;

    // The end offset of every pool string, as it will be written to the wire.
    let mut ends: Vec<u32> = Vec::new();
    let mut total: u32 = 0;
    let mut k: usize = 0;
    while k < m.pool.len()
        invariant
            k <= m.pool@.len(),
            pool_v == m@.pool,
            model == m@,
            wf_mbe(model),
            ends@.len() == k,
            total as int == pool_size(pool_v.subrange(0, k as int)),
            forall|j: int| 0 <= j < k ==> (#[trigger] ends@[j]) as int == pool_end(pool_v, j),
        decreases m.pool@.len() - k,
    {
        proof {
            assert(pool_v.subrange(0, k + 1).drop_last() =~= pool_v.subrange(0, k as int));
            assert(pool_v.subrange(0, k + 1).last() == pool_v[k as int]);
            lemma_pool_prefix_le(pool_v, k + 1);
            assert(pool_v[k as int] == m.pool@[k as int]@);
        }
        total = total + m.pool[k].len() as u32 + 1;
        ends.push(total);
        k = k + 1;
    }
    proof {
        assert(pool_v.subrange(0, m.pool@.len() as int) =~= pool_v);
    }

    let mut out: Vec<u8> = Vec::new();
    out.push(77);
    out.push(66);
    out.push(69);
    out.push(49);
    assert(out@ =~= mbe_magic());
    push_u32_le(&mut out, m.kinds.len() as u32);

    // The field-kind descriptor.
    let ghost header0 = mbe_magic() + u32_le(model.kinds.len() as u32);
    let mut f: usize = 0;
    while f < m.kinds.len()
        invariant
            f <= m.kinds@.len(),
            model == m@,
            out@ == header0 + kinds_bytes(model.kinds.subrange(0, f as int)),
        decreases m.kinds@.len() - f,
    {
        proof {
            assert(model.kinds.subrange(0, f + 1).drop_last() =~= model.kinds.subrange(0,
                f as int));
            assert(model.kinds.subrange(0, f + 1).last() == model.kinds[f as int]);
        }
        match m.kinds[f] {
            FieldKind::Scalar => { out.push(0); },
            FieldKind::Text => { out.push(1); },
        }
        f = f + 1;
        assert(out@ =~= header0 + kinds_bytes(model.kinds.subrange(0, f as int)));
    }
    proof {
        assert(model.kinds.subrange(0, m.kinds@.len() as int) =~= model.kinds);
    }
    push_u32_le(&mut out, m.records.len() as u32);

    // The records.
    let ghost header1 = header0 + kinds_bytes(model.kinds) + u32_le(model.records.len() as u32);
    let mut r: usize = 0;
    while r < m.records.len()
        invariant
            r <= m.records@.len(),
            model == m@,
            pool_v == m@.pool,
            wf_mbe(model),
            ends@.len() == pool_v.len(),
            forall|j: int| 0 <= j < pool_v.len() ==> (#[trigger] ends@[j]) as int == pool_end(
                pool_v, j),
            pool_size(pool_v) <= 0xffff_ffff,
            out@ == header1 + records_bytes(model.records.subrange(0, r as int), pool_v),
        decreases m.records@.len() - r,
    {
        proof {
            assert(model.records.subrange(0, r + 1).drop_last() =~= model.records.subrange(0,
                r as int));
            assert(model.records.subrange(0, r + 1).last() == model.records[r as int]);
            assert(model.records[r as int] == m.records@[r as int]@);
        }
        let ghost rec_v = model.records[r as int];
        let mut f: usize = 0;
        while f < m.records[r].len()
            invariant
                f <= rec_v.len(),
                model == m@,
                pool_v == m@.pool,
                wf_mbe(model),
                r < m.records@.len(),
                rec_v == model.records[r as int],
                rec_v == m.records@[r as int]@,
                ends@.len() == pool_v.len(),
                forall|j: int| 0 <= j < pool_v.len() ==> (#[trigger] ends@[j]) as int
                    == pool_end(pool_v, j),
                pool_size(pool_v) <= 0xffff_ffff,
                out@ == header1 + records_bytes(model.records.subrange(0, r as int), pool_v)
                    + record_bytes(rec_v.subrange(0, f as int), pool_v),
            decreases rec_v.len() - f,
        {
            proof {
                assert(rec_v.subrange(0, f + 1).drop_last() =~= rec_v.subrange(0, f as int));
                assert(rec_v.subrange(0, f + 1).last() == rec_v[f as int]);
                assert(field_matches(model.kinds[f as int], model.records[r as int][f as int],
                    pool_v.len() as int));
            }
            match m.records[r][f] {
                FieldVal::Scalar(x) => {
                    push_u32_le(&mut out, x);
                },
                FieldVal::Text(idx) => {
                    proof {
                        lemma_pool_end_bounds(pool_v, idx as int);
                    }
                    push_u32_le(&mut out, ends[idx]);
                },
            }
            f = f + 1;
            assert(out@ =~= header1 + records_bytes(model.records.subrange(0, r as int), pool_v)
                + record_bytes(rec_v.subrange(0, f as int), pool_v));
        }
        proof {
            assert(rec_v.subrange(0, rec_v.len() as int) =~= rec_v);
            assert(out@ =~= header1 + records_bytes(model.records.subrange(0, r + 1), pool_v));
        }
        r = r + 1;
    }
    proof {
        assert(model.records.subrange(0, m.records@.len() as int) =~= model.records);
    }

    // The data region.
    push_u32_le(&mut out, total);
    let ghost header2 = header1 + records_bytes(model.records, pool_v) + u32_le(
        pool_size(pool_v) as u32);
    let mut k: usize = 0;
    while k < m.pool.len()
        invariant
            k <= m.pool@.len(),
            model == m@,
            pool_v == m@.pool,
            out@ == header2 + region_bytes(pool_v.subrange(0, k as int)),
        decreases m.pool@.len() - k,
    {
        proof {
            assert(pool_v.subrange(0, k + 1).drop_last() =~= pool_v.subrange(0, k as int));
            assert(pool_v.subrange(0, k + 1).last() == pool_v[k as int]);
            assert(pool_v[k as int] == m.pool@[k as int]@);
        }
        push_bytes(&mut out, &m.pool[k]);
        out.push(0);
        k = k + 1;
        assert(out@ =~= header2 + region_bytes(pool_v.subrange(0, k as int)));
    }
    proof {
        assert(pool_v.subrange(0, m.pool@.len() as int) =~= pool_v);
        assert(out@ =~= mbe_bytes(model));
    }
    out
}

/// The views of a vector of byte strings.
pub open spec fn view_texts(ts: Seq<Vec<u8>>) -> Seq<Seq<u8>> {
    ts.map_values(|t: Vec<u8>| t@)
}

/// The views of a vector of records.
pub open spec fn view_recs(rs: Seq<Vec<FieldVal>>) -> Seq<Seq<FieldVal>> {
    rs.map_values(|r: Vec<FieldVal>| r@)
}

/// The wire bytes of a sequence of raw 32-bit field values.
pub open spec fn raw_fields_bytes(vs: Seq<u32>) -> Seq<u8>
    decreases vs.len(),
{
    if vs.len() == 0 {
        Seq::<u8>::empty()
    } else {
        raw_fields_bytes(vs.drop_last()) + u32_le(vs.last())
    }
}

/// The wire bytes of a sequence of raw records.
pub open spec fn raw_records_bytes(rs: Seq<Vec<u32>>) -> Seq<u8>
    decreases rs.len(),
{
    if rs.len() == 0 {
        Seq::<u8>::empty()
    } else {
        raw_records_bytes(rs.drop_last()) + raw_fields_bytes(rs.last()@)
    }
}

/// The byte length of the records region: four bytes per field.
pub open spec fn recs_len(rs: Seq<Seq<FieldVal>>) -> int
    decreases rs.len(),
{
    if rs.len() == 0 {
        0
    } else {
        recs_len(rs.drop_last()) + 4 * rs.last().len()
    }
}

/// One record measures four bytes per field on the wire.
proof fn lemma_record_bytes_len(r: Seq<FieldVal>, pool: Seq<Seq<u8>>)
    ensures
        record_bytes(r, pool).len() == 4 * r.len(),
    decreases r.len(),
{
    if r.len() > 0 {
        lemma_record_bytes_len(r.drop_last(), pool);
        match r.last() {
            FieldVal::Scalar(_) => {},
            FieldVal::Text(_) => {},
        }
    }
}

/// The records region measures `recs_len` bytes.
proof fn lemma_records_bytes_len(rs: Seq<Seq<FieldVal>>, pool: Seq<Seq<u8>>)
    ensures
        records_bytes(rs, pool).len() == recs_len(rs),
        recs_len(rs) >= 0,
    decreases rs.len(),
{
    if rs.len() > 0 {
        lemma_records_bytes_len(rs.drop_last(), pool);
        lemma_record_bytes_len(rs.last(), pool);
    }
}

/// The kind bytes of the first `j` fields are a prefix of the descriptor.
proof fn lemma_kinds_prefix(ks: Seq<FieldKind>, j: int)
    requires
        0 <= j <= ks.len(),
    ensures
        kinds_bytes(ks).subrange(0, j) == kinds_bytes(ks.subrange(0, j)),
    decreases ks.len() - j,
{
    lemma_mbe_lens(Seq::<Seq<u8>>::empty(), ks);
    lemma_mbe_lens(Seq::<Seq<u8>>::empty(), ks.subrange(0, j));
    if j == ks.len() {
        assert(ks.subrange(0, j) =~= ks);
        assert(kinds_bytes(ks).subrange(0, j) =~= kinds_bytes(ks));
    } else {
        lemma_kinds_prefix(ks, j + 1);
        assert(ks.subrange(0, j + 1).drop_last() =~= ks.subrange(0, j));
        assert(ks.subrange(0, j + 1).last() == ks[j]);
        lemma_mbe_lens(Seq::<Seq<u8>>::empty(), ks.subrange(0, j + 1));
        assert(kinds_bytes(ks).subrange(0, j) =~= kinds_bytes(ks).subrange(0, j + 1).subrange(
            0, j));
        assert(kinds_bytes(ks.subrange(0, j + 1)).subrange(0, j) =~= kinds_bytes(ks.subrange(0,
            j)));
    }
}

/// The bytes of the first `j` records are a prefix of the records region.
proof fn lemma_records_prefix(rs: Seq<Seq<FieldVal>>, pool: Seq<Seq<u8>>, j: int)
    requires
        0 <= j <= rs.len(),
    ensures
        recs_len(rs.subrange(0, j)) >= 0,
        recs_len(rs.subrange(0, j)) <= recs_len(rs),
        records_bytes(rs, pool).subrange(0, recs_len(rs.subrange(0, j))) == records_bytes(
            rs.subrange(0, j), pool),
    decreases rs.len() - j,
{
    lemma_records_bytes_len(rs.subrange(0, j), pool);
    lemma_records_bytes_len(rs, pool);
    if j == rs.len() {
        assert(rs.subrange(0, j) =~= rs);
        assert(records_bytes(rs, pool).subrange(0, recs_len(rs)) =~= records_bytes(rs, pool));
    } else {
        lemma_records_prefix(rs, pool, j + 1);
        assert(rs.subrange(0, j + 1).drop_last() =~= rs.subrange(0, j));
        assert(rs.subrange(0, j + 1).last() == rs[j]);
        lemma_records_bytes_len(rs.subrange(0, j + 1), pool);
        assert(records_bytes(rs, pool).subrange(0, recs_len(rs.subrange(0, j)))
            =~= records_bytes(rs, pool).subrange(0, recs_len(rs.subrange(0, j + 1))).subrange(
            0, recs_len(rs.subrange(0, j))));
        assert(records_bytes(rs.subrange(0, j + 1), pool).subrange(0, recs_len(rs.subrange(0,
            j))) =~= records_bytes(rs.subrange(0, j), pool));
    }
}

/// The bytes of a record's first `j` fields are a prefix of the record.
proof fn lemma_record_prefix(r: Seq<FieldVal>, pool: Seq<Seq<u8>>, j: int)
    requires
        0 <= j <= r.len(),
    ensures
        record_bytes(r, pool).subrange(0, 4 * j) == record_bytes(r.subrange(0, j), pool),
    decreases r.len() - j,
{
    lemma_record_bytes_len(r.subrange(0, j), pool);
    lemma_record_bytes_len(r, pool);
    if j == r.len() {
        assert(r.subrange(0, j) =~= r);
        assert(record_bytes(r, pool).subrange(0, 4 * j) =~= record_bytes(r, pool));
    } else {
        lemma_record_prefix(r, pool, j + 1);
        assert(r.subrange(0, j + 1).drop_last() =~= r.subrange(0, j));
        assert(r.subrange(0, j + 1).last() == r[j]);
        lemma_record_bytes_len(r.subrange(0, j + 1), pool);
        assert(record_bytes(r, pool).subrange(0, 4 * j) =~= record_bytes(r, pool).subrange(0,
            4 * (j + 1)).subrange(0, 4 * j));
        assert(record_bytes(r.subrange(0, j + 1), pool).subrange(0, 4 * j) =~= record_bytes(
            r.subrange(0, j), pool));
    }
}

/// The bytes of the first `j` stored strings are a prefix of the region.
proof fn lemma_region_prefix(pool: Seq<Seq<u8>>, j: int)
    requires
        0 <= j <= pool.len(),
    ensures
        region_bytes(pool).subrange(0, pool_size(pool.subrange(0, j))) == region_bytes(
            pool.subrange(0, j)),
    decreases pool.len() - j,
{
    lemma_mbe_lens(pool.subrange(0, j), Seq::<FieldKind>::empty());
    lemma_mbe_lens(pool, Seq::<FieldKind>::empty());
    lemma_pool_prefix_le(pool, j);
    if j == pool.len() {
        assert(pool.subrange(0, j) =~= pool);
        assert(region_bytes(pool).subrange(0, pool_size(pool)) =~= region_bytes(pool));
    } else {
        lemma_region_prefix(pool, j + 1);
        lemma_pool_prefix_le(pool, j + 1);
        assert(pool.subrange(0, j + 1).drop_last() =~= pool.subrange(0, j));
        assert(pool.subrange(0, j + 1).last() == pool[j]);
        lemma_mbe_lens(pool.subrange(0, j + 1), Seq::<FieldKind>::empty());
        assert(region_bytes(pool).subrange(0, pool_size(pool.subrange(0, j)))
            =~= region_bytes(pool).subrange(0, pool_size(pool.subrange(0, j + 1))).subrange(0,
            pool_size(pool.subrange(0, j))));
        assert(region_bytes(pool.subrange(0, j + 1)).subrange(0, pool_size(pool.subrange(0,
            j))) =~= region_bytes(pool.subrange(0, j)));
    }
}

/// Where the region keeps stored string `k`: its bytes, then its terminator.
proof fn lemma_region_slot(pool: Seq<Seq<u8>>, k: int)
    requires
        0 <= k < pool.len(),
    ensures
        region_bytes(pool).len() == pool_size(pool),
        0 <= pool_size(pool.subrange(0, k)),
        pool_end(pool, k) == pool_size(pool.subrange(0, k)) + pool[k].len() + 1,
        pool_end(pool, k) <= pool_size(pool),
        region_bytes(pool).subrange(pool_size(pool.subrange(0, k)), pool_end(pool, k) - 1)
            == pool[k],
        region_bytes(pool)[pool_end(pool, k) - 1] == 0,
    decreases pool.len(),
{
    lemma_mbe_lens(pool, Seq::<FieldKind>::empty());
    lemma_region_prefix(pool, k);
    lemma_region_prefix(pool, k + 1);
    lemma_pool_prefix_le(pool, k);
    lemma_pool_prefix_le(pool, k + 1);
    assert(pool.subrange(0, k + 1).drop_last() =~= pool.subrange(0, k));
    assert(pool.subrange(0, k + 1).last() == pool[k]);
    lemma_mbe_lens(pool.subrange(0, k), Seq::<FieldKind>::empty());
    lemma_mbe_lens(pool.subrange(0, k + 1), Seq::<FieldKind>::empty());
    let q = pool_size(pool.subrange(0, k));
    let dl = pool[k].len() as int;
    assert(region_bytes(pool.subrange(0, k + 1)) =~= region_bytes(pool.subrange(0, k))
        + pool[k] + seq![0u8]);
    assert(region_bytes(pool).subrange(0, q + dl + 1) =~= region_bytes(pool.subrange(0, k))
        + pool[k] + seq![0u8]);
    assert forall|t: int| 0 <= t < dl + 1 implies #[trigger] region_bytes(pool)[q + t] == (
    region_bytes(pool.subrange(0, k)) + pool[k] + seq![0u8])[q + t] by {
        assert(region_bytes(pool).subrange(0, q + dl + 1)[q + t] == region_bytes(pool)[q + t]);
    }
    assert forall|t: int| 0 <= t < dl implies #[trigger] region_bytes(pool).subrange(q, q
        + dl)[t] == pool[k][t] by {
        assert(region_bytes(pool)[q + t] == (region_bytes(pool.subrange(0, k)) + pool[k]
            + seq![0u8])[q + t]);
        assert((region_bytes(pool.subrange(0, k)) + pool[k] + seq![0u8])[q + t] == pool[k][t]);
    }
    assert(region_bytes(pool).subrange(q, q + dl) =~= pool[k]);
    assert(region_bytes(pool)[q + dl] == (region_bytes(pool.subrange(0, k)) + pool[k]
        + seq![0u8])[q + dl]);
    assert(region_bytes(pool)[q + dl] == 0);
}

/// The header and trailing structure of an encoded file.
proof fn lemma_mbe_header(w: MbeModel, d: Seq<u8>)
    requires
        wf_mbe(w),
        mbe_bytes(w) == d,
    ensures
        d.len() == 16 + w.kinds.len() + recs_len(w.records) + pool_size(w.pool),
        recs_len(w.records) >= 0,
        pool_size(w.pool) >= 0,
        d.subrange(0, 4) == mbe_magic(),
        d.subrange(4, 8) == u32_le(w.kinds.len() as u32),
        forall|f: int| 0 <= f < w.kinds.len() ==> #[trigger] d[8 + f] == kind_byte(w.kinds[f]),
        d.subrange(8 + w.kinds.len() as int, 12 + w.kinds.len() as int) == u32_le(
            w.records.len() as u32),
        d.subrange(12 + w.kinds.len() as int, 12 + w.kinds.len() + recs_len(w.records))
            == records_bytes(w.records, w.pool),
        d.subrange(12 + w.kinds.len() + recs_len(w.records), 16 + w.kinds.len() + recs_len(
            w.records)) == u32_le(pool_size(w.pool) as u32),
        d.subrange(16 + w.kinds.len() + recs_len(w.records), d.len() as int) == region_bytes(
            w.pool),
{
    lemma_mbe_lens(w.pool, w.kinds);
    lemma_records_bytes_len(w.records, w.pool);
    let fc = w.kinds.len() as int;
    let rl = recs_len(w.records);
    assert(d.subrange(0, 4) =~= mbe_magic());
    assert(d.subrange(4, 8) =~= u32_le(w.kinds.len() as u32));
    assert(d.subrange(8, 8 + fc) =~= kinds_bytes(w.kinds));
    assert forall|f: int| 0 <= f < fc implies #[trigger] d[8 + f] == kind_byte(w.kinds[f]) by {
        lemma_kinds_prefix(w.kinds, f);
        lemma_kinds_prefix(w.kinds, f + 1);
        assert(w.kinds.subrange(0, f + 1).drop_last() =~= w.kinds.subrange(0, f));
        assert(w.kinds.subrange(0, f + 1).last() == w.kinds[f]);
        lemma_mbe_lens(Seq::<Seq<u8>>::empty(), w.kinds.subrange(0, f));
        lemma_mbe_lens(Seq::<Seq<u8>>::empty(), w.kinds.subrange(0, f + 1));
        assert(kinds_bytes(w.kinds.subrange(0, f + 1))[f] == kind_byte(w.kinds[f]));
        assert(kinds_bytes(w.kinds)[f] == kinds_bytes(w.kinds).subrange(0, f + 1)[f]);
        assert(d[8 + f] == d.subrange(8, 8 + fc)[f]);
    }
    assert(d.subrange(8 + fc, 12 + fc) =~= u32_le(w.records.len() as u32));
    assert(d.subrange(12 + fc, 12 + fc + rl) =~= records_bytes(w.records, w.pool));
    assert(d.subrange(12 + fc + rl, 16 + fc + rl) =~= u32_le(pool_size(w.pool) as u32));
    assert(d.subrange(16 + fc + rl, d.len() as int) =~= region_bytes(w.pool));
}

/// Where an encoded file keeps the four bytes of field `f` of record `r`.
proof fn lemma_mbe_field(w: MbeModel, r: int, f: int, d: Seq<u8>)
    requires
        wf_mbe(w),
        mbe_bytes(w) == d,
        0 <= r < w.records.len(),
        0 <= f < w.kinds.len(),
    ensures
        0 <= recs_len(w.records.subrange(0, r)),
        recs_len(w.records.subrange(0, r)) + 4 * f + 4 <= recs_len(w.records),
        d.subrange(12 + w.kinds.len() + recs_len(w.records.subrange(0, r)) + 4 * f, 16
            + w.kinds.len() + recs_len(w.records.subrange(0, r)) + 4 * f) == field_bytes(
            w.records[r][f], w.pool),
{
    lemma_mbe_header(w, d);
    let fc = w.kinds.len() as int;
    let rl = recs_len(w.records);
    let rec = w.records[r];
    assert(rec.len() == w.kinds.len());
    lemma_records_prefix(w.records, w.pool, r);
    lemma_records_prefix(w.records, w.pool, r + 1);
    assert(w.records.subrange(0, r + 1).drop_last() =~= w.records.subrange(0, r));
    assert(w.records.subrange(0, r + 1).last() == rec);
    lemma_records_bytes_len(w.records.subrange(0, r), w.pool);
    lemma_records_bytes_len(w.records.subrange(0, r + 1), w.pool);
    lemma_record_bytes_len(rec, w.pool);
    let pr = recs_len(w.records.subrange(0, r));
    assert(records_bytes(w.records.subrange(0, r + 1), w.pool) =~= records_bytes(
        w.records.subrange(0, r), w.pool) + record_bytes(rec, w.pool));
    assert forall|t: int| 0 <= t < 4 * rec.len() implies #[trigger] records_bytes(w.records,
        w.pool)[pr + t] == record_bytes(rec, w.pool)[t] by {
        assert(records_bytes(w.records, w.pool).subrange(0, recs_len(w.records.subrange(0, r
            + 1)))[pr + t] == records_bytes(w.records, w.pool)[pr + t]);
        assert((records_bytes(w.records.subrange(0, r), w.pool) + record_bytes(rec,
            w.pool))[pr + t] == record_bytes(rec, w.pool)[t]);
    }
    lemma_record_prefix(rec, w.pool, f);
    lemma_record_prefix(rec, w.pool, f + 1);
    assert(rec.subrange(0, f + 1).drop_last() =~= rec.subrange(0, f));
    assert(rec.subrange(0, f + 1).last() == rec[f]);
    lemma_record_bytes_len(rec.subrange(0, f), w.pool);
    lemma_record_bytes_len(rec.subrange(0, f + 1), w.pool);
    assert(record_bytes(rec.subrange(0, f + 1), w.pool) =~= record_bytes(rec.subrange(0, f),
        w.pool) + field_bytes(rec[f], w.pool));
    assert forall|t: int| 0 <= t < 4 implies #[trigger] record_bytes(rec, w.pool)[4 * f + t]
        == field_bytes(rec[f], w.pool)[t] by {
        assert(record_bytes(rec, w.pool).subrange(0, 4 * (f + 1))[4 * f + t] == record_bytes(
            rec, w.pool)[4 * f + t]);
        assert((record_bytes(rec.subrange(0, f), w.pool) + field_bytes(rec[f], w.pool))[4 * f
            + t] == field_bytes(rec[f], w.pool)[t]);
    }
    assert forall|t: int| 0 <= t < 4 implies #[trigger] d.subrange(12 + fc + pr + 4 * f, 16
        + fc + pr + 4 * f)[t] == field_bytes(rec[f], w.pool)[t] by {
        assert(d.subrange(12 + fc, 12 + fc + rl)[pr + 4 * f + t] == d[12 + fc + pr + 4 * f
            + t]);
        assert(records_bytes(w.records, w.pool)[pr + (4 * f + t)] == record_bytes(rec,
            w.pool)[4 * f + t]);
    }
    assert(d.subrange(12 + fc + pr + 4 * f, 16 + fc + pr + 4 * f) =~= field_bytes(rec[f],
        w.pool));
}

/// The references of a record's first `f` fields are a prefix of the
/// record's references.
proof fn lemma_rec_refs_prefix(rec: Seq<FieldVal>, f: int)
    requires
        0 <= f <= rec.len(),
    ensures
        refs_of_rec(rec.subrange(0, f)).len() <= refs_of_rec(rec).len(),
        refs_of_rec(rec).subrange(0, refs_of_rec(rec.subrange(0, f)).len() as int)
            == refs_of_rec(rec.subrange(0, f)),
    decreases rec.len() - f,
{
    if f == rec.len() {
        assert(rec.subrange(0, f) =~= rec);
        assert(refs_of_rec(rec).subrange(0, refs_of_rec(rec).len() as int) =~= refs_of_rec(
            rec));
    } else {
        lemma_rec_refs_prefix(rec, f + 1);
        assert(rec.subrange(0, f + 1).drop_last() =~= rec.subrange(0, f));
        assert(rec.subrange(0, f + 1).last() == rec[f]);
        assert(refs_of_rec(rec).subrange(0, refs_of_rec(rec.subrange(0, f)).len() as int)
            =~= refs_of_rec(rec).subrange(0, refs_of_rec(rec.subrange(0, f
            + 1)).len() as int).subrange(0, refs_of_rec(rec.subrange(0, f)).len() as int));
        assert(refs_of_rec(rec.subrange(0, f + 1)).subrange(0, refs_of_rec(rec.subrange(0,
            f)).len() as int) =~= refs_of_rec(rec.subrange(0, f)));
    }
}

/// The references of the first `j` records are a prefix of the file's
/// references.
proof fn lemma_recs_refs_prefix(rs: Seq<Seq<FieldVal>>, j: int)
    requires
        0 <= j <= rs.len(),
    ensures
        refs_of_recs(rs.subrange(0, j)).len() <= refs_of_recs(rs).len(),
        refs_of_recs(rs).subrange(0, refs_of_recs(rs.subrange(0, j)).len() as int)
            == refs_of_recs(rs.subrange(0, j)),
    decreases rs.len() - j,
{
    if j == rs.len() {
        assert(rs.subrange(0, j) =~= rs);
        assert(refs_of_recs(rs).subrange(0, refs_of_recs(rs).len() as int) =~= refs_of_recs(
            rs));
    } else {
        lemma_recs_refs_prefix(rs, j + 1);
        assert(rs.subrange(0, j + 1).drop_last() =~= rs.subrange(0, j));
        assert(rs.subrange(0, j + 1).last() == rs[j]);
        assert(refs_of_recs(rs).subrange(0, refs_of_recs(rs.subrange(0, j)).len() as int)
            =~= refs_of_recs(rs).subrange(0, refs_of_recs(rs.subrange(0, j
            + 1)).len() as int).subrange(0, refs_of_recs(rs.subrange(0, j)).len() as int));
        assert(refs_of_recs(rs.subrange(0, j + 1)).subrange(0, refs_of_recs(rs.subrange(0,
            j)).len() as int) =~= refs_of_recs(rs.subrange(0, j)));
    }
}

/// The references of the first `r` records plus the first `f` fields of
/// record `r` are a prefix of the file's references.
proof fn lemma_refs_decomp(rs: Seq<Seq<FieldVal>>, r: int, f: int)
    requires
        0 <= r < rs.len(),
        0 <= f <= rs[r].len(),
    ensures
        (refs_of_recs(rs.subrange(0, r)) + refs_of_rec(rs[r].subrange(0, f))).len()
            <= refs_of_recs(rs).len(),
        refs_of_recs(rs).subrange(0, (refs_of_recs(rs.subrange(0, r)) + refs_of_rec(
            rs[r].subrange(0, f))).len() as int) == refs_of_recs(rs.subrange(0, r))
            + refs_of_rec(rs[r].subrange(0, f)),
{
    lemma_recs_refs_prefix(rs, r);
    lemma_recs_refs_prefix(rs, r + 1);
    assert(rs.subrange(0, r + 1).drop_last() =~= rs.subrange(0, r));
    assert(rs.subrange(0, r + 1).last() == rs[r]);
    lemma_rec_refs_prefix(rs[r], f);
    let a = refs_of_recs(rs.subrange(0, r));
    let b = refs_of_rec(rs[r].subrange(0, f));
    let full_rec = refs_of_rec(rs[r]);
    assert(refs_of_recs(rs.subrange(0, r + 1)) =~= a + full_rec);
    let l1 = refs_of_recs(rs.subrange(0, r + 1)).len() as int;
    assert forall|t: int| 0 <= t < (a + b).len() implies #[trigger] refs_of_recs(rs)[t] == (a
        + b)[t] by {
        assert(refs_of_recs(rs).subrange(0, l1)[t] == refs_of_recs(rs)[t]);
        assert((a + full_rec)[t] == (a + b)[t]) by {
            if t >= a.len() {
                assert(full_rec.subrange(0, b.len() as int)[t - a.len()] == full_rec[t
                    - a.len()]);
            }
        }
    }
    assert(refs_of_recs(rs).subrange(0, (a + b).len() as int) =~= a + b);
}

/// The pool slot an offset field names, or a negative value for a scalar.
pub open spec fn text_index(v: FieldVal) -> int {
    match v {
        FieldVal::Text(k) => k as int,
        FieldVal::Scalar(_) => -1,
    }
}

/// What a canonical file forces of the wire value of offset field `f3` of
/// record `r`, once `plen` slots have been introduced by the references
/// before it: the field names a slot no later than the next fresh one, and
/// its wire value is that slot's end offset.
proof fn lemma_resolution_step(w: MbeModel, r: int, f3: int, plen: int, v: u32)
    requires
        canonical_mbe(w),
        0 <= r < w.records.len(),
        0 <= f3 < w.kinds.len(),
        w.records[r][f3] matches FieldVal::Text(_),
        u32_le(v) == field_bytes(w.records[r][f3], w.pool),
        seen_count(refs_of_recs(w.records.subrange(0, r)) + refs_of_rec(w.records[r].subrange(
            0, f3)), (refs_of_recs(w.records.subrange(0, r)) + refs_of_rec(
            w.records[r].subrange(0, f3))).len() as int) == plen,
    ensures
        0 <= text_index(w.records[r][f3]) < w.pool.len(),
        v as int == pool_end(w.pool, text_index(w.records[r][f3])),
        text_index(w.records[r][f3]) <= plen,
{
    let wrec = w.records[r];
    assert(wrec.len() == w.kinds.len());
    assert(field_matches(w.kinds[f3], wrec[f3], w.pool.len() as int));
    let kw = text_index(wrec[f3]);
    assert(0 <= kw < w.pool.len());
    lemma_pool_end_bounds(w.pool, kw);
    lemma_pool_prefix_le(w.pool, w.pool.len() as int);
    assert(w.pool.subrange(0, w.pool.len() as int) =~= w.pool);
    assert(pool_size(w.pool) <= 0xffff_ffff);
    match wrec[f3] {
        FieldVal::Text(ku) => {
            crate::bytes::lemma_u32_le_injective(v, pool_end(w.pool, ku as int) as u32);
        },
        FieldVal::Scalar(_) => {},
    }
    assert(v as int == pool_end(w.pool, kw));
    let a = refs_of_recs(w.records.subrange(0, r));
    let b = refs_of_rec(wrec.subrange(0, f3));
    lemma_refs_decomp(w.records, r, f3);
    lemma_refs_decomp(w.records, r, f3 + 1);
    assert(wrec.subrange(0, f3 + 1).drop_last() =~= wrec.subrange(0, f3));
    assert(wrec.subrange(0, f3 + 1).last() == wrec[f3]);
    assert(refs_of_rec(wrec.subrange(0, f3 + 1)) =~= b.push(kw));
    let full = refs_of_recs(w.records);
    assert(a + refs_of_rec(wrec.subrange(0, f3 + 1)) =~= (a + b).push(kw));
    assert(full.subrange(0, (a + b).len() as int + 1) == a + refs_of_rec(wrec.subrange(0, f3
        + 1)));
    assert(full[(a + b).len() as int] == (a + b).push(kw)[(a + b).len() as int]);
    assert(full[(a + b).len() as int] == kw);
    assert(canonical_refs(full, w.pool.len() as int));
    assert(0 <= kw <= seen_count(full, (a + b).len() as int));
    assert(full.subrange(0, (a + b).len() as int) == a + b);
    assert((a + b).subrange(0, (a + b).len() as int) =~= a + b);
    lemma_seen_count_prefix(full, a + b, (a + b).len() as int);
    assert(kw <= plen);
}

/// Finds a value among the offsets already seen.
fn find_u32(seen: &Vec<u32>, v: u32) -> (r: Option<usize>)
    ensures
        match r {
            Some(i) => i < seen@.len() && seen@[i as int] == v,
            None => forall|j: int| 0 <= j < seen@.len() ==> (#[trigger] seen@[j]) != v,
        },
{
    let mut i: usize = 0;
    while i < seen.len()
        invariant
            i <= seen@.len(),
            forall|j: int| 0 <= j < i ==> (#[trigger] seen@[j]) != v,
        decreases seen@.len() - i,
    {
        if seen[i] == v {
            return Some(i);
        }
        i = i + 1;
    }
    None
}

/// Decodes one MBE file from a complete byte stream, tracking the cumulative
/// offset in `cur`.
///
/// On success the returned file re-encodes, via `mbe_bytes`, to exactly the
/// input: whatever this decoder accepts, `build_mbe` reproduces byte-for-byte.
/// The decoder only accepts the canonical layout that `build_mbe` emits: the
/// data region packed in order of first reference, every string terminated,
/// no slack. A bad magic, an unknown field kind or an undeclared trailing
/// byte fails with `MalformedHeader`; a declared count or region that needs
/// more bytes than remain fails with `TruncatedFile`; an offset field whose
/// value does not delimit a stored string fails with `MalformedRecord`,
/// carrying the record's index and the cumulative count of validated
/// data-region bytes.
#[verifier::rlimit(100)]
pub fn parse_mbe(data: &Vec<u8>, cur: &mut Cursor) -> (r: Result<MbeFile, CodecError>)
    requires
        old(cur).pos == 0,
    ensures
        match r {
            Ok(file) => {
                &&& wf_mbe(file@)
                &&& canonical_mbe(file@)
                &&& mbe_bytes(file@) == data@
                &&& mbe_canonical_decodable(data@)
                &&& final(cur).pos == data@.len()
            },
            Err(_) => final(cur).pos <= data@.len() && !mbe_canonical_decodable(data@),
        },
{
    let ghost d = data@;
    let magic = match cur.read_bytes(data, 4) {
        Ok(v) => v,
        Err(_) => {
            proof {
                if mbe_canonical_decodable(d) {
                    let w = decoded_mbe(d);
                    assert(canonical_mbe(w) && mbe_bytes(w) == d);
                    lemma_mbe_header(w, d);
                }
            }
            return Err(CodecError::MalformedHeader);
        },
    };
    if !(magic[0] == 77 && magic[1] == 66 && magic[2] == 69 && magic[3] == 49) {
        proof {
            if mbe_canonical_decodable(d) {
                let w = decoded_mbe(d);
                assert(canonical_mbe(w) && mbe_bytes(w) == d);
                lemma_mbe_header(w, d);
                assert(d[0] == mbe_magic()[0]);
                assert(d[1] == mbe_magic()[1]);
                assert(d[2] == mbe_magic()[2]);
                assert(d[3] == mbe_magic()[3]);
            }
        }
        return Err(CodecError::MalformedHeader);
    }
    assert(d.subrange(0, 4) =~= mbe_magic());
    let fc32 = match cur.read_u32(data) {
        Ok(v) => v,
        Err(_) => {
            proof {
                if mbe_canonical_decodable(d) {
                    let w = decoded_mbe(d);
                    assert(canonical_mbe(w) && mbe_bytes(w) == d);
                    lemma_mbe_header(w, d);
                }
            }
            return Err(CodecError::MalformedHeader);
        },
    };
    proof {
        crate::bytes::lemma_u32_bytes_roundtrip(d.subrange(4, 8));
        assert(d.subrange(0, 8) =~= d.subrange(0, 4) + d.subrange(4, 8));
        if mbe_canonical_decodable(d) {
            let w = decoded_mbe(d);
            assert(canonical_mbe(w) && mbe_bytes(w) == d);
            lemma_mbe_header(w, d);
            crate::bytes::lemma_u32_le_injective(fc32, w.kinds.len() as u32);
            assert(fc32 as int == w.kinds.len());
        }
    }
    let fc = fc32 as usize;

    let mut kinds: Vec<FieldKind> = Vec::new();
    let mut f: usize = 0;
    while f < fc
        invariant
            f <= fc,
            fc == fc32 as int,
            d == data@,
            kinds@.len() == f,
            cur.pos <= d.len(),
            cur.pos as int == 8 + f,
            d.subrange(0, cur.pos as int) == mbe_magic() + u32_le(fc32) + kinds_bytes(kinds@),
            mbe_canonical_decodable(d) ==> fc as int == decoded_mbe(d).kinds.len() && (
            forall|j: int| 0 <= j < f ==> kinds@[j] == decoded_mbe(d).kinds[j]),
        decreases fc - f,
    {
        let ghost okinds = kinds@;
        let ghost p0 = cur.pos as int;
        proof {
            if mbe_canonical_decodable(d) {
                let w = decoded_mbe(d);
                assert(canonical_mbe(w) && mbe_bytes(w) == d);
                lemma_mbe_header(w, d);
                assert(d[8 + f] == kind_byte(w.kinds[f as int]));
            }
        }
        let b = match cur.read_u8(data) {
            Ok(v) => v,
            Err(_) => { return Err(CodecError::MalformedHeader); },
        };
        if b == 0 {
            kinds.push(FieldKind::Scalar);
        } else if b == 1 {
            kinds.push(FieldKind::Text);
        } else {
            proof {
                if mbe_canonical_decodable(d) {
                    let w = decoded_mbe(d);
                    assert(b == kind_byte(w.kinds[f as int]));
                    assert(b == 0 || b == 1) by {
                        match w.kinds[f as int] {
                            FieldKind::Scalar => {},
                            FieldKind::Text => {},
                        }
                    }
                }
            }
            return Err(CodecError::MalformedHeader);
        }
        proof {
            assert(kinds@.drop_last() =~= okinds);
            assert(kind_byte(kinds@.last()) == b);
            assert(d.subrange(p0, p0 + 1) =~= seq![b]);
            assert(d.subrange(0, cur.pos as int) =~= d.subrange(0, p0) + d.subrange(p0, p0 + 1));
            assert(d.subrange(0, cur.pos as int) =~= mbe_magic() + u32_le(fc32) + kinds_bytes(
                kinds@));
            if mbe_canonical_decodable(d) {
                let w = decoded_mbe(d);
                assert(b == kind_byte(w.kinds[f as int]));
                assert(kinds@.last() == w.kinds[f as int]) by {
                    match w.kinds[f as int] {
                        FieldKind::Scalar => {},
                        FieldKind::Text => {},
                    }
                }
            }
        }
        f = f + 1;
    }
    let ghost prc = cur.pos as int;
    let rc32 = match cur.read_u32(data) {
        Ok(v) => v,
        Err(_) => {
            proof {
                if mbe_canonical_decodable(d) {
                    let w = decoded_mbe(d);
                    assert(canonical_mbe(w) && mbe_bytes(w) == d);
                    lemma_mbe_header(w, d);
                }
            }
            return Err(CodecError::MalformedHeader);
        },
    };
    proof {
        crate::bytes::lemma_u32_bytes_roundtrip(d.subrange(prc, prc + 4));
        assert(d.subrange(0, cur.pos as int) =~= d.subrange(0, prc) + d.subrange(prc, prc + 4));
        if mbe_canonical_decodable(d) {
            let w = decoded_mbe(d);
            assert(canonical_mbe(w) && mbe_bytes(w) == d);
            lemma_mbe_header(w, d);
            assert(d.subrange(prc, prc + 4) == u32_le(w.records.len() as u32));
            crate::bytes::lemma_u32_le_injective(rc32, w.records.len() as u32);
            assert(rc32 as int == w.records.len());
            assert(kinds@ =~= w.kinds);
        }
    }
    let rc = rc32 as usize;
    let ghost headerb = mbe_magic() + u32_le(fc32) + kinds_bytes(kinds@) + u32_le(rc32);
    assert(d.subrange(0, cur.pos as int) =~= headerb);

    // The raw 32-bit field values of every record, before resolution.
    let mut raw: Vec<Vec<u32>> = Vec::new();
    proof {
        if mbe_canonical_decodable(d) {
            let w = decoded_mbe(d);
            assert(w.records.subrange(0, 0) =~= Seq::<Seq<FieldVal>>::empty());
        }
    }
    let mut r: usize = 0;
    while r < rc
        invariant
            r <= rc,
            d == data@,
            raw@.len() == r,
            cur.pos <= d.len(),
            fc == fc32 as int,
            rc == rc32 as int,
            forall|i: int| 0 <= i < r ==> (#[trigger] raw@[i])@.len() == fc as int,
            d.subrange(0, cur.pos as int) == headerb + raw_records_bytes(raw@),
            mbe_canonical_decodable(d) ==> ({
                let w = decoded_mbe(d);
                &&& fc as int == w.kinds.len()
                &&& rc as int == w.records.len()
                &&& cur.pos as int == 12 + w.kinds.len() + recs_len(w.records.subrange(0,
                    r as int))
                &&& forall|i: int, j: int| 0 <= i < r && 0 <= j < fc as int ==> u32_le(
                    #[trigger] raw@[i]@[j]) == field_bytes(w.records[i][j], w.pool)
            }),
        decreases rc - r,
    {
        let mut rr: Vec<u32> = Vec::new();
        let mut f2: usize = 0;
        while f2 < fc
            invariant
                f2 <= fc,
                r < rc,
                d == data@,
                rr@.len() == f2,
                cur.pos <= d.len(),
                fc == fc32 as int,
                rc == rc32 as int,
                raw@.len() == r,
                d.subrange(0, cur.pos as int) == headerb + raw_records_bytes(raw@)
                    + raw_fields_bytes(rr@),
                mbe_canonical_decodable(d) ==> ({
                    let w = decoded_mbe(d);
                    &&& fc as int == w.kinds.len()
                    &&& rc as int == w.records.len()
                    &&& cur.pos as int == 12 + w.kinds.len() + recs_len(w.records.subrange(0,
                        r as int)) + 4 * (f2 as int)
                    &&& forall|i: int, j: int| 0 <= i < r && 0 <= j < fc as int ==> u32_le(
                        #[trigger] raw@[i]@[j]) == field_bytes(w.records[i][j], w.pool)
                    &&& forall|j: int| 0 <= j < f2 ==> u32_le(#[trigger] rr@[j])
                        == field_bytes(w.records[r as int][j], w.pool)
                }),
            decreases fc - f2,
        {
            let ghost orr = rr@;
            let ghost p0 = cur.pos as int;
            proof {
                if mbe_canonical_decodable(d) {
                    let w = decoded_mbe(d);
                    assert(canonical_mbe(w) && mbe_bytes(w) == d);
                    lemma_mbe_field(w, r as int, f2 as int, d);
                    lemma_mbe_header(w, d);
                }
            }
            let v = match cur.read_u32(data) {
                Ok(v) => v,
                Err(_) => { return Err(CodecError::TruncatedFile); },
            };
            rr.push(v);
            proof {
                crate::bytes::lemma_u32_bytes_roundtrip(d.subrange(p0, p0 + 4));
                assert(rr@.drop_last() =~= orr);
                assert(d.subrange(0, cur.pos as int) =~= d.subrange(0, p0) + d.subrange(p0,
                    p0 + 4));
                assert(d.subrange(0, cur.pos as int) =~= headerb + raw_records_bytes(raw@)
                    + raw_fields_bytes(rr@));
                if mbe_canonical_decodable(d) {
                    let w = decoded_mbe(d);
                    assert(u32_le(v) == d.subrange(p0, p0 + 4));
                    assert(u32_le(v) == field_bytes(w.records[r as int][f2 as int], w.pool));
                }
            }
            f2 = f2 + 1;
        }
        let ghost oraw = raw@;
        raw.push(rr);
        proof {
            assert(raw@.drop_last() =~= oraw);
            assert(d.subrange(0, cur.pos as int) =~= headerb + raw_records_bytes(raw@));
            if mbe_canonical_decodable(d) {
                let w = decoded_mbe(d);
                assert(w.records.subrange(0, r + 1).drop_last() =~= w.records.subrange(0,
                    r as int));
                assert(w.records.subrange(0, r + 1).last() == w.records[r as int]);
                assert(w.records[r as int].len() == w.kinds.len());
                assert forall|i: int, j: int| 0 <= i < r + 1 && 0 <= j < fc as int implies
                    u32_le(#[trigger] raw@[i]@[j]) == field_bytes(w.records[i][j], w.pool) by {
                    if i < r {
                        assert(raw@[i] == oraw[i]);
                    } else {
                        assert(raw@[i] == raw@.last());
                    }
                }
            }
        }
        r = r + 1;
    }

    let ghost prl = cur.pos as int;
    proof {
        if mbe_canonical_decodable(d) {
            let w = decoded_mbe(d);
            assert(canonical_mbe(w) && mbe_bytes(w) == d);
            lemma_mbe_header(w, d);
            assert(w.records.subrange(0, rc as int) =~= w.records);
        }
    }
    let region_len32 = match cur.read_u32(data) {
        Ok(v) => v,
        Err(_) => { return Err(CodecError::TruncatedFile); },
    };
    proof {
        crate::bytes::lemma_u32_bytes_roundtrip(d.subrange(prl, prl + 4));
        assert(d.subrange(0, cur.pos as int) =~= d.subrange(0, prl) + d.subrange(prl, prl + 4));
        if mbe_canonical_decodable(d) {
            let w = decoded_mbe(d);
            assert(d.subrange(prl, prl + 4) == u32_le(pool_size(w.pool) as u32));
            crate::bytes::lemma_u32_le_injective(region_len32, pool_size(w.pool) as u32);
            assert(region_len32 as int == pool_size(w.pool));
        }
    }
    let region_start = cur.offset();
    let region = match cur.read_bytes(data, region_len32 as usize) {
        Ok(v) => v,
        Err(_) => {
            proof {
                if mbe_canonical_decodable(d) {
                    let w = decoded_mbe(d);
                    assert(canonical_mbe(w) && mbe_bytes(w) == d);
                    lemma_mbe_header(w, d);
                }
            }
            return Err(CodecError::TruncatedFile);
        },
    };
    if cur.offset() != data.len() {
        proof {
            if mbe_canonical_decodable(d) {
                let w = decoded_mbe(d);
                assert(canonical_mbe(w) && mbe_bytes(w) == d);
                lemma_mbe_header(w, d);
            }
        }
        return Err(CodecError::MalformedHeader);
    }
    let ghost bodyb = headerb + raw_records_bytes(raw@) + u32_le(region_len32);
    proof {
        assert(d.subrange(0, cur.pos as int) =~= bodyb + region@);
        assert(d =~= d.subrange(0, d.len() as int));
        assert(d =~= bodyb + region@);
        if mbe_canonical_decodable(d) {
            let w = decoded_mbe(d);
            assert(canonical_mbe(w) && mbe_bytes(w) == d);
            lemma_mbe_header(w, d);
            assert(region@ =~= d.subrange(16 + w.kinds.len() + recs_len(w.records),
                d.len() as int));
            assert(region@ == region_bytes(w.pool));
        }
    }

    // Resolution: walk the raw values in record order and rebuild the string
    // pool in order of first reference, checking that the region is packed.
    let mut pool: Vec<Vec<u8>> = Vec::new();
    let mut seen: Vec<u32> = Vec::new();
    let mut records: Vec<Vec<FieldVal>> = Vec::new();
    let mut consumed: u32 = 0;
    proof {
        assert(refs_of_recs(view_recs(records@)) =~= Seq::<int>::empty());
    }
    let mut r: usize = 0;
    while r < rc
        invariant
            r <= rc,
            records@.len() == r,
            pool@.len() == seen@.len(),
            raw@.len() == rc,
            kinds@.len() == fc as int,
            fc == fc32 as int,
            rc == rc32 as int,
            forall|i: int| 0 <= i < rc ==> (#[trigger] raw@[i])@.len() == fc as int,
            region@.len() == region_len32 as int,
            region_start + region_len32 as int <= data@.len(),
            region_start + region_len32 as int <= usize::MAX,
            cur.pos == data@.len(),
            consumed <= region_len32,
            consumed as int == pool_size(view_texts(pool@)),
            region@.subrange(0, consumed as int) == region_bytes(view_texts(pool@)),
            forall|j: int| 0 <= j < seen@.len() ==> (#[trigger] seen@[j]) as int == pool_end(
                view_texts(pool@), j),
            forall|k: int, j: int| 0 <= k < pool@.len() && 0 <= j < view_texts(pool@)[k].len()
                ==> (#[trigger] view_texts(pool@)[k][j]) != 0,
            forall|i: int| 0 <= i < r ==> (#[trigger] view_recs(records@)[i]).len()
                == fc as int,
            forall|i: int, j: int| 0 <= i < r && 0 <= j < fc as int ==> field_matches(kinds@[j],
                #[trigger] view_recs(records@)[i][j], pool@.len() as int),
            records_bytes(view_recs(records@), view_texts(pool@)) == raw_records_bytes(
                raw@.subrange(0, r as int)),
            forall|i: int| 0 <= i < refs_of_recs(view_recs(records@)).len() ==> 0 <= #[trigger]
            refs_of_recs(view_recs(records@))[i] <= seen_count(refs_of_recs(view_recs(
                records@)), i),
            seen_count(refs_of_recs(view_recs(records@)), refs_of_recs(view_recs(
                records@)).len() as int) == pool@.len(),
            mbe_canonical_decodable(data@) ==> ({
                let w = decoded_mbe(data@);
                &&& fc as int == w.kinds.len()
                &&& rc as int == w.records.len()
                &&& kinds@ == w.kinds
                &&& region_len32 as int == pool_size(w.pool)
                &&& region@ == region_bytes(w.pool)
                &&& (forall|i: int, j: int| 0 <= i < rc && 0 <= j < fc as int ==> u32_le(
                    #[trigger] raw@[i]@[j]) == field_bytes(w.records[i][j], w.pool))
                &&& view_recs(records@) == w.records.subrange(0, r as int)
                &&& pool@.len() <= w.pool.len()
                &&& view_texts(pool@) == w.pool.subrange(0, pool@.len() as int)
            }),
        decreases rc - r,
    {
        let mut rec: Vec<FieldVal> = Vec::new();
        proof {
            assert(refs_of_rec(rec@) =~= Seq::<int>::empty());
            assert(refs_of_recs(view_recs(records@)) + refs_of_rec(rec@) =~= refs_of_recs(
                view_recs(records@)));
        }
        let mut f3: usize = 0;
        while f3 < fc
            invariant
                f3 <= fc,
                r < rc,
                records@.len() == r,
                rec@.len() == f3,
                pool@.len() == seen@.len(),
                raw@.len() == rc,
                kinds@.len() == fc as int,
                fc == fc32 as int,
                forall|i: int| 0 <= i < rc ==> (#[trigger] raw@[i])@.len() == fc as int,
                region@.len() == region_len32 as int,
                region_start + region_len32 as int <= data@.len(),
                region_start + region_len32 as int <= usize::MAX,
                cur.pos == data@.len(),
                consumed <= region_len32,
                consumed as int == pool_size(view_texts(pool@)),
                region@.subrange(0, consumed as int) == region_bytes(view_texts(pool@)),
                forall|j: int| 0 <= j < seen@.len() ==> (#[trigger] seen@[j]) as int == pool_end(
                    view_texts(pool@), j),
                forall|k: int, j: int| 0 <= k < pool@.len() && 0 <= j < view_texts(
                    pool@)[k].len() ==> (#[trigger] view_texts(pool@)[k][j]) != 0,
                forall|i: int| 0 <= i < r ==> (#[trigger] view_recs(records@)[i]).len()
                    == fc as int,
                forall|i: int, j: int| 0 <= i < r && 0 <= j < fc as int ==> field_matches(
                    kinds@[j], #[trigger] view_recs(records@)[i][j], pool@.len() as int),
                forall|j: int| 0 <= j < f3 ==> field_matches(kinds@[j], #[trigger] rec@[j],
                    pool@.len() as int),
                records_bytes(view_recs(records@), view_texts(pool@)) + record_bytes(rec@,
                    view_texts(pool@)) == raw_records_bytes(raw@.subrange(0, r as int))
                    + raw_fields_bytes(raw@[r as int]@.subrange(0, f3 as int)),
                forall|i: int| 0 <= i < (refs_of_recs(view_recs(records@)) + refs_of_rec(
                    rec@)).len() ==> 0 <= #[trigger] (refs_of_recs(view_recs(records@))
                    + refs_of_rec(rec@))[i] <= seen_count(refs_of_recs(view_recs(records@))
                    + refs_of_rec(rec@), i),
                seen_count(refs_of_recs(view_recs(records@)) + refs_of_rec(rec@), (
                refs_of_recs(view_recs(records@)) + refs_of_rec(rec@)).len() as int)
                    == pool@.len(),
                mbe_canonical_decodable(data@) ==> ({
                    let w = decoded_mbe(data@);
                    &&& fc as int == w.kinds.len()
                    &&& rc as int == w.records.len()
                    &&& kinds@ == w.kinds
                    &&& region_len32 as int == pool_size(w.pool)
                    &&& region@ == region_bytes(w.pool)
                    &&& (forall|i: int, j: int| 0 <= i < rc && 0 <= j < fc as int ==> u32_le(
                        #[trigger] raw@[i]@[j]) == field_bytes(w.records[i][j], w.pool))
                    &&& view_recs(records@) == w.records.subrange(0, r as int)
                    &&& rec@ == w.records[r as int].subrange(0, f3 as int)
                    &&& pool@.len() <= w.pool.len()
                    &&& view_texts(pool@) == w.pool.subrange(0, pool@.len() as int)
                }),
            decreases fc - f3,
        {
            let v = raw[r][f3];
            let ghost orec = rec@;
            let ghost opv = view_texts(pool@);
            proof {
                assert(raw@[r as int]@.subrange(0, f3 + 1).drop_last() =~= raw@[
                    r as int]@.subrange(0, f3 as int));
                assert(raw@[r as int]@.subrange(0, f3 + 1).last() == raw@[r as int]@[f3 as int]);
                if mbe_canonical_decodable(data@) {
                    let w = decoded_mbe(data@);
                    assert(canonical_mbe(w) && mbe_bytes(w) == data@);
                    let wrec = w.records[r as int];
                    assert(wrec.len() == w.kinds.len());
                    assert(u32_le(v) == field_bytes(wrec[f3 as int], w.pool));
                    assert(field_matches(w.kinds[f3 as int], wrec[f3 as int],
                        w.pool.len() as int));
                    assert(wrec.subrange(0, f3 + 1).drop_last() =~= wrec.subrange(0,
                        f3 as int));
                    assert(wrec.subrange(0, f3 + 1).last() == wrec[f3 as int]);
                }
            }
            match kinds[f3] {
                FieldKind::Scalar => {
                    rec.push(FieldVal::Scalar(v));
                    proof {
                        assert(rec@.drop_last() =~= orec);
                        assert(rec@.last() == FieldVal::Scalar(v));
                        assert(record_bytes(rec@, opv) == record_bytes(orec, opv) + u32_le(v));
                        assert(raw_fields_bytes(raw@[r as int]@.subrange(0, f3 + 1))
                            == raw_fields_bytes(raw@[r as int]@.subrange(0, f3 as int))
                            + u32_le(v));
                        assert(records_bytes(view_recs(records@), opv) + record_bytes(rec@, opv)
                            =~= (records_bytes(view_recs(records@), opv) + record_bytes(orec,
                            opv)) + u32_le(v));
                        assert(raw_records_bytes(raw@.subrange(0, r as int)) + raw_fields_bytes(
                            raw@[r as int]@.subrange(0, f3 + 1)) =~= (raw_records_bytes(
                            raw@.subrange(0, r as int)) + raw_fields_bytes(raw@[
                            r as int]@.subrange(0, f3 as int))) + u32_le(v));
                        assert(records_bytes(view_recs(records@), opv) + record_bytes(rec@, opv)
                            == raw_records_bytes(raw@.subrange(0, r as int))
                            + raw_fields_bytes(raw@[r as int]@.subrange(0, f3 + 1)));
                        assert(refs_of_rec(rec@) =~= refs_of_rec(orec));
                        assert(refs_of_recs(view_recs(records@)) + refs_of_rec(rec@)
                            =~= refs_of_recs(view_recs(records@)) + refs_of_rec(orec));
                        if mbe_canonical_decodable(data@) {
                            let w = decoded_mbe(data@);
                            let wrec = w.records[r as int];
                            assert(w.kinds[f3 as int] == FieldKind::Scalar);
                            assert(wrec[f3 as int] matches FieldVal::Scalar(_));
                            match wrec[f3 as int] {
                                FieldVal::Scalar(x) => {
                                    crate::bytes::lemma_u32_le_injective(v, x);
                                },
                                FieldVal::Text(_) => {},
                            }
                            assert(rec@.last() == wrec[f3 as int]);
                            assert(rec@ =~= wrec.subrange(0, f3 + 1));
                        }
                    }
                },
                FieldKind::Text => {
                    match find_u32(&seen, v) {
                        Some(k) => {
                            rec.push(FieldVal::Text(k));
                            proof {
                                assert(rec@.drop_last() =~= orec);
                                assert(pool_end(opv, k as int) == seen@[k as int] as int);
                                assert(field_bytes(FieldVal::Text(k), opv) == u32_le(v));
                                assert(rec@.last() == FieldVal::Text(k));
                                assert(record_bytes(rec@, opv) == record_bytes(orec, opv)
                                    + u32_le(v));
                                assert(raw_fields_bytes(raw@[r as int]@.subrange(0, f3 + 1))
                                    == raw_fields_bytes(raw@[r as int]@.subrange(0, f3 as int))
                                    + u32_le(v));
                                assert(records_bytes(view_recs(records@), opv)
                                    + record_bytes(rec@, opv) =~= (records_bytes(view_recs(
                                    records@), opv) + record_bytes(orec, opv)) + u32_le(v));
                                assert(raw_records_bytes(raw@.subrange(0, r as int))
                                    + raw_fields_bytes(raw@[r as int]@.subrange(0, f3 + 1))
                                    =~= (raw_records_bytes(raw@.subrange(0, r as int))
                                    + raw_fields_bytes(raw@[r as int]@.subrange(0, f3 as int)))
                                    + u32_le(v));
                                assert(records_bytes(view_recs(records@), opv) + record_bytes(
                                    rec@, opv) == raw_records_bytes(raw@.subrange(0, r as int))
                                    + raw_fields_bytes(raw@[r as int]@.subrange(0, f3 + 1)));
                                assert(refs_of_rec(rec@) =~= refs_of_rec(orec) + seq![
                                    k as int]);
                                assert(refs_of_recs(view_recs(records@)) + refs_of_rec(rec@)
                                    =~= (refs_of_recs(view_recs(records@)) + refs_of_rec(
                                    orec)).push(k as int));
                                lemma_canonical_refs_push(refs_of_recs(view_recs(records@))
                                    + refs_of_rec(orec), k as int, pool@.len() as int);
                                if mbe_canonical_decodable(data@) {
                                    let w = decoded_mbe(data@);
                                    let wrec = w.records[r as int];
                                    assert(w.kinds[f3 as int] == FieldKind::Text);
                                    assert(wrec[f3 as int] matches FieldVal::Text(_));
                                    let kw = text_index(wrec[f3 as int]);
                                    assert(0 <= kw < w.pool.len());
                                    lemma_pool_end_bounds(w.pool, kw);
                                    match wrec[f3 as int] {
                                        FieldVal::Text(ku) => {
                                            crate::bytes::lemma_u32_le_injective(v, pool_end(
                                                w.pool, ku as int) as u32);
                                        },
                                        FieldVal::Scalar(_) => {},
                                    }
                                    assert(v as int == pool_end(w.pool, kw));
                                    assert(opv.subrange(0, k as int + 1) =~= w.pool.subrange(
                                        0, k as int + 1));
                                    assert(seen@[k as int] as int == pool_end(w.pool,
                                        k as int));
                                    if k as int != kw {
                                        if (k as int) < kw {
                                            lemma_pool_end_increasing(w.pool, k as int, kw);
                                        } else {
                                            lemma_pool_end_increasing(w.pool, kw, k as int);
                                        }
                                    }
                                    assert(k as int == kw);
                                    assert(rec@.last() == wrec[f3 as int]);
                                    assert(rec@ =~= wrec.subrange(0, f3 + 1));
                                }
                            }
                        },
                        None => {
                            proof {
                                if mbe_canonical_decodable(data@) {
                                    let w = decoded_mbe(data@);
                                    assert(canonical_mbe(w) && mbe_bytes(w) == data@);
                                    let wrec = w.records[r as int];
                                    assert(w.kinds[f3 as int] == FieldKind::Text);
                                    assert(wrec[f3 as int] matches FieldVal::Text(_));
                                    assert(refs_of_recs(w.records.subrange(0, r as int))
                                        == refs_of_recs(view_recs(records@)));
                                    assert(refs_of_rec(wrec.subrange(0, f3 as int))
                                        == refs_of_rec(rec@));
                                    lemma_resolution_step(w, r as int, f3 as int,
                                        pool@.len() as int, v);
                                    let kw = text_index(wrec[f3 as int]);
                                    let plen = pool@.len() as int;
                                    if kw < plen {
                                        assert(seen@[kw] as int == pool_end(opv, kw));
                                        assert(opv.subrange(0, kw + 1) =~= w.pool.subrange(0,
                                            kw + 1));
                                        assert(seen@[kw] as int == pool_end(w.pool, kw));
                                        assert(seen@[kw] == v);
                                    }
                                    assert(kw == plen);
                                    assert(plen < w.pool.len());
                                    lemma_region_slot(w.pool, plen);
                                    assert(opv =~= w.pool.subrange(0, plen));
                                    assert(consumed as int == pool_size(w.pool.subrange(0,
                                        plen)));
                                    assert(v as int == consumed as int + w.pool[plen].len()
                                        + 1);
                                    assert(v as int <= pool_size(w.pool));
                                    assert forall|t: int| consumed as int <= t < v - 1
                                        implies #[trigger] region@[t] != 0 by {
                                        assert(region@.subrange(pool_size(w.pool.subrange(0,
                                            plen)), pool_end(w.pool, plen) - 1)[t
                                            - consumed as int] == region@[t]);
                                        assert(w.pool[plen][t - consumed as int] != 0);
                                    }
                                    assert(region@[v - 1] == 0);
                                }
                            }
                            if v > region_len32 || v <= consumed {
                                return Err(CodecError::MalformedRecord {
                                    index: r,
                                    offset: region_start + consumed as usize,
                                });
                            }
                            let mut text: Vec<u8> = Vec::new();
                            let start = consumed as usize;
                            let vend = (v - 1) as usize;
                            let mut j: usize = start;
                            while j < vend
                                invariant
                                    start <= j <= vend,
                                    start == consumed as int,
                                    vend == v - 1,
                                    v <= region_len32,
                                    region@.len() == region_len32 as int,
                                    consumed <= region_len32,
                                    region_start + region_len32 as int <= usize::MAX,
                                    cur.pos == data@.len(),
                                    text@ == region@.subrange(start as int, j as int),
                                    forall|t: int| 0 <= t < text@.len() ==> (
                                    #[trigger] text@[t]) != 0,
                                    mbe_canonical_decodable(data@) ==> (forall|t: int|
                                        start as int <= t < v - 1 ==> #[trigger] region@[t]
                                        != 0) && region@[v - 1] == 0,
                                decreases vend - j,
                            {
                                let b = region[j];
                                if b == 0 {
                                    return Err(CodecError::MalformedRecord {
                                        index: r,
                                        offset: region_start + consumed as usize,
                                    });
                                }
                                text.push(b);
                                j = j + 1;
                                assert(text@ =~= region@.subrange(start as int, j as int));
                            }
                            if region[vend] != 0 {
                                return Err(CodecError::MalformedRecord {
                                    index: r,
                                    offset: region_start + consumed as usize,
                                });
                            }
                            let ghost orecs = view_recs(records@);
                            let ghost c0 = consumed as int;
                            pool.push(text);
                            seen.push(v);
                            let k = pool.len() - 1;
                            rec.push(FieldVal::Text(k));
                            consumed = v;
                            proof {
                                let pv2 = view_texts(pool@);
                                assert(pv2.drop_last() =~= opv);
                                assert(pv2.subrange(0, opv.len() as int) =~= opv);
                                assert(pv2.last() == text@);
                                assert(pool_size(pv2) == pool_size(opv) + text@.len() + 1);
                                assert(pool_size(pv2) == v as int);
                                assert(region@.subrange(vend as int, v as int) =~= seq![0u8]);
                                assert(region@.subrange(0, v as int) =~= region@.subrange(0, c0)
                                    + region@.subrange(c0, vend as int) + region@.subrange(
                                    vend as int, v as int));
                                assert(region@.subrange(0, v as int) =~= region_bytes(pv2));
                                assert(pv2.subrange(0, k + 1) =~= pv2);
                                assert(pool_end(pv2, k as int) == v as int);
                                assert forall|j2: int| 0 <= j2 < seen@.len() implies (
                                #[trigger] seen@[j2]) as int == pool_end(pv2, j2) by {
                                    if j2 < k as int {
                                        lemma_pool_end_extend(opv, pv2, j2);
                                    }
                                }
                                lemma_records_bytes_extend(orecs, opv, pv2);
                                lemma_record_bytes_extend(orec, opv, pv2);
                                assert(rec@.drop_last() =~= orec);
                                assert(rec@.last() == FieldVal::Text(k));
                                assert(field_bytes(FieldVal::Text(k), pv2) == u32_le(v));
                                assert(record_bytes(rec@, pv2) == record_bytes(orec, pv2)
                                    + u32_le(v));
                                assert(raw_fields_bytes(raw@[r as int]@.subrange(0, f3 + 1))
                                    == raw_fields_bytes(raw@[r as int]@.subrange(0, f3 as int))
                                    + u32_le(v));
                                assert(records_bytes(view_recs(records@), pv2)
                                    + record_bytes(rec@, pv2) =~= (records_bytes(view_recs(
                                    records@), pv2) + record_bytes(orec, pv2)) + u32_le(v));
                                assert(raw_records_bytes(raw@.subrange(0, r as int))
                                    + raw_fields_bytes(raw@[r as int]@.subrange(0, f3 + 1))
                                    =~= (raw_records_bytes(raw@.subrange(0, r as int))
                                    + raw_fields_bytes(raw@[r as int]@.subrange(0, f3 as int)))
                                    + u32_le(v));
                                assert(records_bytes(view_recs(records@), pv2) + record_bytes(
                                    rec@, pv2) == raw_records_bytes(raw@.subrange(0, r as int))
                                    + raw_fields_bytes(raw@[r as int]@.subrange(0, f3 + 1)));
                                if mbe_canonical_decodable(data@) {
                                    let w = decoded_mbe(data@);
                                    let wrec = w.records[r as int];
                                    let kw = text_index(wrec[f3 as int]);
                                    let plen = opv.len() as int;
                                    assert(kw == plen);
                                    lemma_region_slot(w.pool, plen);
                                    assert(text@ =~= region@.subrange(c0, vend as int));
                                    assert(pool_size(w.pool.subrange(0, plen)) == c0);
                                    assert(pool_end(w.pool, plen) - 1 == vend as int);
                                    assert(text@ == w.pool[plen]);
                                    assert(view_texts(pool@) =~= w.pool.subrange(0, plen
                                        + 1));
                                    assert(k as int == kw);
                                    assert(rec@.last() == wrec[f3 as int]);
                                    assert(rec@ =~= wrec.subrange(0, f3 + 1));
                                    assert(pool@.len() <= w.pool.len());
                                }
                                assert(refs_of_rec(rec@) =~= refs_of_rec(orec) + seq![
                                    k as int]);
                                assert(refs_of_recs(view_recs(records@)) + refs_of_rec(rec@)
                                    =~= (refs_of_recs(view_recs(records@)) + refs_of_rec(
                                    orec)).push(k as int));
                                assert(k as int == opv.len() as int);
                                lemma_canonical_refs_push(refs_of_recs(view_recs(records@))
                                    + refs_of_rec(orec), k as int, opv.len() as int);
                            }
                        },
                    }
                },
            }
            f3 = f3 + 1;
        }
        let ghost orecs = view_recs(records@);
        let ghost orecv = rec@;
        records.push(rec);
        proof {
            assert(view_recs(records@).drop_last() =~= orecs);
            assert(view_recs(records@).last() == records@.last()@);
            assert(records@.last()@ == orecv);
            assert(refs_of_recs(view_recs(records@)) =~= refs_of_recs(orecs) + refs_of_rec(
                orecv));
            if mbe_canonical_decodable(data@) {
                let w = decoded_mbe(data@);
                assert(w.records.subrange(0, r + 1).drop_last() =~= w.records.subrange(0,
                    r as int));
                assert(w.records.subrange(0, r + 1).last() == w.records[r as int]);
                assert(w.records[r as int].subrange(0, fc as int) =~= w.records[r as int]);
                assert(orecv == w.records[r as int]);
                assert(view_recs(records@) =~= w.records.subrange(0, r + 1));
            }
            assert(raw@.subrange(0, r + 1).drop_last() =~= raw@.subrange(0, r as int));
            assert(raw@.subrange(0, r + 1).last() == raw@[r as int]);
            assert(raw@[r as int]@.subrange(0, fc as int) =~= raw@[r as int]@);
            assert(records_bytes(view_recs(records@), view_texts(pool@)) =~= raw_records_bytes(
                raw@.subrange(0, r + 1)));
            assert forall|i: int| 0 <= i < r + 1 implies (#[trigger] view_recs(
                records@)[i]).len() == fc as int by {
                if i < r {
                    assert(view_recs(records@)[i] == orecs[i]);
                } else {
                    assert(view_recs(records@)[i] == records@.last()@);
                }
            }
            assert forall|i: int, j: int| 0 <= i < r + 1 && 0 <= j < fc as int implies
                field_matches(kinds@[j], #[trigger] view_recs(records@)[i][j],
                pool@.len() as int) by {
                if i < r {
                    assert(view_recs(records@)[i] == orecs[i]);
                } else {
                    assert(view_recs(records@)[i] == records@.last()@);
                }
            }
        }
        r = r + 1;
    }
    if consumed != region_len32 {
        proof {
            if mbe_canonical_decodable(data@) {
                let w = decoded_mbe(data@);
                assert(canonical_mbe(w) && mbe_bytes(w) == data@);
                assert(w.records.subrange(0, rc as int) =~= w.records);
                assert(refs_of_recs(view_recs(records@)) == refs_of_recs(w.records));
                assert(canonical_refs(refs_of_recs(w.records), w.pool.len() as int));
                assert(pool@.len() as int == w.pool.len());
                assert(w.pool.subrange(0, w.pool.len() as int) =~= w.pool);
                assert(view_texts(pool@) == w.pool);
                assert(consumed as int == pool_size(w.pool));
            }
        }
        return Err(CodecError::MalformedHeader);
    }
    let file = MbeFile { kinds, records, pool };
    proof {
        let fm = file@;
        assert(raw@.subrange(0, rc as int) =~= raw@);
        assert(region@.subrange(0, consumed as int) =~= region@);
        assert(region_bytes(fm.pool) == region@);
        assert(pool_size(fm.pool) as u32 == region_len32);
        assert(fm.kinds.len() as u32 == fc32);
        assert(fm.records.len() as u32 == rc32);
        assert(mbe_bytes(fm) =~= bodyb + region@);
        assert(mbe_bytes(fm) == data@);
        assert(wf_mbe(fm));
        assert(canonical_refs(refs_of_recs(fm.records), fm.pool.len() as int));
        assert(canonical_mbe(fm));
        assert(mbe_canonical_decodable(data@));
    }
    Ok(file)
}

} // verus!
