use vstd::prelude::*;

use crate::bytes::{push_bytes, push_u32_le, push_u64_le, u32_le, u64_le};
use crate::cursor::Cursor;
use crate::errors::CodecError;

verus! {

/// One named, offset-addressed blob of an MVGL archive.
pub struct Entry {
    pub name: Vec<u8>,
    pub data: Vec<u8>,
}

/// The mathematical model of an entry: its name and payload bytes.
#[verifier::ext_equal]
pub ghost struct EntryModel {
    pub name: Seq<u8>,
    pub data: Seq<u8>,
}

impl View for Entry {
    type V = EntryModel;

    open spec fn view(&self) -> EntryModel {
        EntryModel { name: self.name@, data: self.data@ }
    }
}

/// The models of a sequence of entries.
pub open spec fn view_entries(es: Seq<Entry>) -> Seq<EntryModel> {
    es.map_values(|e: Entry| e@)
}

/// The four magic bytes that open an archive.
pub open spec fn mvgl_magic() -> Seq<u8> {
    seq![77u8, 86u8, 71u8, 76u8]
}

/// The byte length of the entry table: twenty fixed bytes per entry
/// (name length, offset and size) plus the name itself.
pub open spec fn table_len(es: Seq<EntryModel>) -> int
    decreases es.len(),
{
    if es.len() == 0 {
        0
    } else {
        table_len(es.drop_last()) + 20 + es.last().name.len()
    }
}

/// The byte length of the concatenated payloads.
pub open spec fn payload_len(es: Seq<EntryModel>) -> int
    decreases es.len(),
{
    if es.len() == 0 {
        0
    } else {
        payload_len(es.drop_last()) + es.last().data.len()
    }
}

/// The concatenated payloads, in table order, with no gaps.
pub open spec fn payload_bytes(es: Seq<EntryModel>) -> Seq<u8>
    decreases es.len(),
{
    if es.len() == 0 {
        Seq::<u8>::empty()
    } else {
        payload_bytes(es.drop_last()) + es.last().data
    }
}

/// The entry table. Each row holds the name length, the name, the absolute
/// offset of the entry's payload and its size; `ps` is the absolute offset at
/// which the first payload starts.
pub open spec fn table_bytes(es: Seq<EntryModel>, ps: int) -> Seq<u8>
    decreases es.len(),
{
    if es.len() == 0 {
        Seq::<u8>::empty()
    } else {
        table_bytes(es.drop_last(), ps) + u32_le(es.last().name.len() as u32) + es.last().name
            + u64_le((ps + payload_len(es.drop_last())) as u64)
            + u64_le(es.last().data.len() as u64)
    }
}

/// The total byte length of the archive holding these entries.
pub open spec fn mvgl_len(es: Seq<EntryModel>) -> int {
    8 + table_len(es) + payload_len(es)
}

/// The absolute offset at which entry `i`'s payload lies.
pub open spec fn entry_offset(es: Seq<EntryModel>, i: int) -> int {
    8 + table_len(es) + payload_len(es.subrange(0, i))
}

/// The full archive: magic, entry count, entry table, then the payloads.
pub open spec fn mvgl_bytes(es: Seq<EntryModel>) -> Seq<u8> {
    mvgl_magic() + u32_le(es.len() as u32) + table_bytes(es, 8 + table_len(es))
        + payload_bytes(es)
}

/// Every count and name length fits its field, and every offset fits 64 bits.
pub open spec fn wf_entries(es: Seq<EntryModel>) -> bool {
    &&& es.len() <= 0xffff_ffff
    &&& forall|i: int| 0 <= i < es.len() ==> (#[trigger] es[i]).name.len() <= 0xffff_ffff
    &&& mvgl_len(es) <= u64::MAX
}

/// The table and payload lengths are non-negative and are the lengths of the
/// corresponding byte sequences.
pub proof fn lemma_mvgl_lens(es: Seq<EntryModel>, ps: int)
    ensures
        table_len(es) >= 0,
        payload_len(es) >= 0,
        table_bytes(es, ps).len() == table_len(es),
        payload_bytes(es).len() == payload_len(es),
    decreases es.len(),
{
    if es.len() > 0 {
        lemma_mvgl_lens(es.drop_last(), ps);
    }
}

/// A prefix never measures more than the whole sequence.
pub proof fn lemma_mvgl_prefix_le(es: Seq<EntryModel>, i: int)
    requires
        0 <= i <= es.len(),
    ensures
        table_len(es.subrange(0, i)) <= table_len(es),
        payload_len(es.subrange(0, i)) <= payload_len(es),
    decreases es.len() - i,
{
    if i == es.len() {
        assert(es.subrange(0, i) =~= es);
    } else {
        assert(es.subrange(0, i + 1).drop_last() =~= es.subrange(0, i));
        assert(es.subrange(0, i + 1).last() == es[i]);
        lemma_mvgl_prefix_le(es, i + 1);
    }
}

/// Packs entries into a fresh archive byte stream: magic and count first, the
/// complete table next (offsets assigned sequentially, no gaps), then every
/// payload in table order.
pub fn pack_archive(entries: &Vec<Entry>) -> (r: Vec<u8>)
    requires
        wf_entries(view_entries(entries@)),
        mvgl_len(view_entries(entries@)) <= usize::MAX,
    ensures
        r@ == mvgl_bytes(view_entries(entries@)),
{
    let ghost es = view_entries(entries@);
    proof {
        lemma_mvgl_lens(es, 0);
    }
    // First pass: size the table, so that the payload offsets are known
    // before any table row is emitted.
    let mut tl: usize = 0;
    let mut i: usize = 0;
    while i < entries.len()
        invariant
            i <= entries@.len(),
            es == view_entries(entries@),
            wf_entries(es),
            mvgl_len(es) <= usize::MAX,
            tl == table_len(es.subrange(0, i as int)),
        decreases entries@.len() - i,
    {
        proof {
            assert(es.subrange(0, i + 1).drop_last() =~= es.subrange(0, i as int));
            assert(es.subrange(0, i + 1).last() == es[i as int]);
            lemma_mvgl_prefix_le(es, i + 1);
            lemma_mvgl_lens(es, 0);
        }
        tl = tl + 20 + entries[i].name.len();
        i = i + 1;
    }
    proof {
        assert(es.subrange(0, entries@.len() as int) =~= es);
    }
    let ps: usize = 8 + tl;

    let ghost count = es.len() as u32;
    let mut out: Vec<u8> = Vec::new();
    out.push(77);
    out.push(86);
    out.push(71);
    out.push(76);
    assert(out@ =~= mvgl_magic());
    push_u32_le(&mut out, entries.len() as u32);

    // Second pass: the table rows.
    let mut off: usize = ps;
    let mut i: usize = 0;
    while i < entries.len()
        invariant
            i <= entries@.len(),
            es == view_entries(entries@),
            wf_entries(es),
            mvgl_len(es) <= usize::MAX,
            ps == 8 + table_len(es),
            off == ps + payload_len(es.subrange(0, i as int)),
            out@ == mvgl_magic() + u32_le(count) + table_bytes(es.subrange(0, i as int), ps as int),
        decreases entries@.len() - i,
    {
        proof {
            assert(es.subrange(0, i + 1).drop_last() =~= es.subrange(0, i as int));
            assert(es.subrange(0, i + 1).last() == es[i as int]);
            lemma_mvgl_prefix_le(es, i + 1);
            lemma_mvgl_lens(es, 0);
        }
        let e = &entries[i];
        push_u32_le(&mut out, e.name.len() as u32);
        push_bytes(&mut out, &e.name);
        push_u64_le(&mut out, off as u64);
        push_u64_le(&mut out, e.data.len() as u64);
        assert(out@ =~= mvgl_magic() + u32_le(count)
            + table_bytes(es.subrange(0, i + 1), ps as int));
        off = off + e.data.len();
        i = i + 1;
    }
    proof {
        assert(es.subrange(0, entries@.len() as int) =~= es);
    }

    // Third pass: the payloads, in the order the table promised.
    let mut i: usize = 0;
    while i < entries.len()
        invariant
            i <= entries@.len(),
            es == view_entries(entries@),
            out@ == mvgl_magic() + u32_le(count) + table_bytes(es, ps as int)
                + payload_bytes(es.subrange(0, i as int)),
        decreases entries@.len() - i,
    {
        proof {
            assert(es.subrange(0, i + 1).drop_last() =~= es.subrange(0, i as int));
            assert(es.subrange(0, i + 1).last() == es[i as int]);
        }
        push_bytes(&mut out, &entries[i].data);
        assert(out@ =~= mvgl_magic() + u32_le(count) + table_bytes(es, ps as int)
            + payload_bytes(es.subrange(0, i + 1)));
        i = i + 1;
    }
    proof {
        assert(es.subrange(0, entries@.len() as int) =~= es);
        assert(out@ =~= mvgl_bytes(es));
    }
    out
}

/// The raw bytes of the table rows read from a stream, before the stored
/// offsets and sizes have been checked against the payloads.
pub open spec fn raw_rows_bytes(names: Seq<Vec<u8>>, offs: Seq<u64>, sizes: Seq<u64>) -> Seq<u8>
    recommends
        names.len() == offs.len() == sizes.len(),
    decreases names.len(),
{
    if names.len() == 0 {
        Seq::<u8>::empty()
    } else {
        raw_rows_bytes(names.drop_last(), offs.drop_last(), sizes.drop_last())
            + u32_le(names.last()@.len() as u32) + names.last()@ + u64_le(offs.last())
            + u64_le(sizes.last())
    }
}

/// Raw rows whose names match a sequence of entries measure exactly that
/// entry table.
proof fn lemma_raw_rows_len(
    names: Seq<Vec<u8>>,
    offs: Seq<u64>,
    sizes: Seq<u64>,
    es: Seq<EntryModel>,
)
    requires
        names.len() == offs.len() == sizes.len(),
        es.len() == names.len(),
        forall|j: int| 0 <= j < names.len() ==> (#[trigger] names[j])@ == es[j].name,
    ensures
        raw_rows_bytes(names, offs, sizes).len() == table_len(es),
    decreases names.len(),
{
    if names.len() > 0 {
        lemma_raw_rows_len(names.drop_last(), offs.drop_last(), sizes.drop_last(),
            es.drop_last());
    }
}

/// Raw rows whose names match the entries, whose stored offsets are the
/// sequential payload offsets from `ps` on, and whose stored sizes are the
/// payload sizes, are the entry table itself.
proof fn lemma_raw_rows_table(
    names: Seq<Vec<u8>>,
    offs: Seq<u64>,
    sizes: Seq<u64>,
    es: Seq<EntryModel>,
    ps: int,
)
    requires
        names.len() == offs.len() == sizes.len(),
        es.len() == names.len(),
        forall|j: int| 0 <= j < names.len() ==> (#[trigger] names[j])@ == es[j].name,
        forall|j: int| 0 <= j < names.len() ==> (#[trigger] offs[j]) as int == ps + payload_len(
            es.subrange(0, j)),
        forall|j: int| 0 <= j < names.len() ==> (#[trigger] sizes[j]) as int == es[j].data.len(),
    ensures
        raw_rows_bytes(names, offs, sizes) == table_bytes(es, ps),
    decreases names.len(),
{
    if names.len() > 0 {
        let m = names.len() - 1;
        assert forall|j: int| 0 <= j < m implies (#[trigger] offs.drop_last()[j]) as int == ps
            + payload_len(es.drop_last().subrange(0, j)) by {
            assert(es.drop_last().subrange(0, j) =~= es.subrange(0, j));
        }
        lemma_raw_rows_table(names.drop_last(), offs.drop_last(), sizes.drop_last(),
            es.drop_last(), ps);
        assert(es.subrange(0, m) =~= es.drop_last());
        assert(offs[m] as int == ps + payload_len(es.drop_last()));
    }
}

/// The bytes of the first `j` table rows are a prefix of the full table's
/// bytes.
proof fn lemma_table_prefix(es: Seq<EntryModel>, ps: int, j: int)
    requires
        0 <= j <= es.len(),
    ensures
        table_len(es.subrange(0, j)) >= 0,
        table_len(es.subrange(0, j)) <= table_len(es),
        table_bytes(es, ps).subrange(0, table_len(es.subrange(0, j))) == table_bytes(
            es.subrange(0, j), ps),
    decreases es.len() - j,
{
    lemma_mvgl_lens(es.subrange(0, j), ps);
    lemma_mvgl_prefix_le(es, j);
    if j == es.len() {
        assert(es.subrange(0, j) =~= es);
        lemma_mvgl_lens(es, ps);
        assert(table_bytes(es, ps).subrange(0, table_len(es)) =~= table_bytes(es, ps));
    } else {
        lemma_table_prefix(es, ps, j + 1);
        assert(es.subrange(0, j + 1).drop_last() =~= es.subrange(0, j));
        assert(es.subrange(0, j + 1).last() == es[j]);
        lemma_mvgl_lens(es.subrange(0, j + 1), ps);
        lemma_mvgl_lens(es, ps);
        assert(table_bytes(es, ps).subrange(0, table_len(es.subrange(0, j)))
            =~= table_bytes(es, ps).subrange(0, table_len(es.subrange(0, j + 1))).subrange(0,
            table_len(es.subrange(0, j))));
        assert(table_bytes(es.subrange(0, j + 1), ps).subrange(0, table_len(es.subrange(0, j)))
            =~= table_bytes(es.subrange(0, j), ps));
    }
}

/// The bytes of the first `j` payloads are a prefix of the payload region.
proof fn lemma_payload_prefix(es: Seq<EntryModel>, j: int)
    requires
        0 <= j <= es.len(),
    ensures
        payload_len(es.subrange(0, j)) >= 0,
        payload_len(es.subrange(0, j)) <= payload_len(es),
        payload_bytes(es).subrange(0, payload_len(es.subrange(0, j))) == payload_bytes(
            es.subrange(0, j)),
    decreases es.len() - j,
{
    lemma_mvgl_lens(es.subrange(0, j), 0);
    lemma_mvgl_prefix_le(es, j);
    if j == es.len() {
        assert(es.subrange(0, j) =~= es);
        lemma_mvgl_lens(es, 0);
        assert(payload_bytes(es).subrange(0, payload_len(es)) =~= payload_bytes(es));
    } else {
        lemma_payload_prefix(es, j + 1);
        assert(es.subrange(0, j + 1).drop_last() =~= es.subrange(0, j));
        assert(es.subrange(0, j + 1).last() == es[j]);
        lemma_mvgl_lens(es.subrange(0, j + 1), 0);
        lemma_mvgl_lens(es, 0);
        assert(payload_bytes(es).subrange(0, payload_len(es.subrange(0, j)))
            =~= payload_bytes(es).subrange(0, payload_len(es.subrange(0, j + 1))).subrange(0,
            payload_len(es.subrange(0, j))));
        assert(payload_bytes(es.subrange(0, j + 1)).subrange(0, payload_len(es.subrange(0, j)))
            =~= payload_bytes(es.subrange(0, j)));
    }
}

/// Where the canonical stream of a well-formed entry sequence keeps the
/// fields of table row `k`, and what bytes stand there.
proof fn lemma_canonical_row(w: Seq<EntryModel>, k: int, d: Seq<u8>)
    requires
        wf_entries(w),
        mvgl_bytes(w) == d,
        0 <= k < w.len(),
    ensures
        d.len() == mvgl_len(w),
        table_len(w.subrange(0, k)) >= 0,
        8 + table_len(w.subrange(0, k)) + 20 + w[k].name.len() <= 8 + table_len(w),
        mvgl_len(w) >= 8 + table_len(w),
        d.subrange(8 + table_len(w.subrange(0, k)), 8 + table_len(w.subrange(0, k)) + 4)
            == u32_le(w[k].name.len() as u32),
        d.subrange(8 + table_len(w.subrange(0, k)) + 4, 8 + table_len(w.subrange(0, k)) + 4
            + w[k].name.len()) == w[k].name,
        d.subrange(8 + table_len(w.subrange(0, k)) + 4 + w[k].name.len(), 8 + table_len(
            w.subrange(0, k)) + 12 + w[k].name.len()) == u64_le(entry_offset(w, k) as u64),
        d.subrange(8 + table_len(w.subrange(0, k)) + 12 + w[k].name.len(), 8 + table_len(
            w.subrange(0, k)) + 20 + w[k].name.len()) == u64_le(w[k].data.len() as u64),
{
    let ps = 8 + table_len(w);
    lemma_mvgl_lens(w, ps);
    lemma_table_prefix(w, ps, k);
    lemma_table_prefix(w, ps, k + 1);
    assert(w.subrange(0, k + 1).drop_last() =~= w.subrange(0, k));
    assert(w.subrange(0, k + 1).last() == w[k]);
    lemma_mvgl_lens(w.subrange(0, k), ps);
    lemma_mvgl_lens(w.subrange(0, k + 1), ps);
    assert(d.subrange(8, 8 + table_len(w)) =~= table_bytes(w, ps));
    let p = table_len(w.subrange(0, k));
    let nl = w[k].name.len() as int;
    let row = u32_le(w[k].name.len() as u32) + w[k].name + u64_le((ps + payload_len(w.subrange(
        0, k))) as u64) + u64_le(w[k].data.len() as u64);
    assert(table_bytes(w.subrange(0, k + 1), ps) =~= table_bytes(w.subrange(0, k), ps) + row);
    assert(table_len(w.subrange(0, k + 1)) == p + 20 + nl);
    assert(table_bytes(w, ps).subrange(0, p + 20 + nl) =~= table_bytes(w.subrange(0, k), ps)
        + row);
    assert forall|t: int| 0 <= t < 20 + nl implies #[trigger] d[8 + p + t] == row[t] by {
        assert((table_bytes(w.subrange(0, k), ps) + row)[p + t] == row[t]);
        assert(table_bytes(w, ps).subrange(0, p + 20 + nl)[p + t] == table_bytes(w, ps)[p + t]);
        assert(d.subrange(8, 8 + table_len(w))[p + t] == d[8 + p + t]);
    }
    assert(entry_offset(w, k) == ps + payload_len(w.subrange(0, k)));
    assert forall|t: int| 0 <= t < 4 implies #[trigger] d.subrange(8 + p, 8 + p + 4)[t] == u32_le(
        w[k].name.len() as u32)[t] by {
        assert(d[8 + p + t] == row[t]);
    }
    assert(d.subrange(8 + p, 8 + p + 4) =~= u32_le(w[k].name.len() as u32));
    assert forall|t: int| 0 <= t < nl implies #[trigger] d.subrange(8 + p + 4, 8 + p + 4 + nl)[t]
        == w[k].name[t] by {
        assert(d[8 + p + (4 + t)] == row[4 + t]);
        assert(row[4 + t] == w[k].name[t]);
    }
    assert(d.subrange(8 + p + 4, 8 + p + 4 + nl) =~= w[k].name);
    assert forall|t: int| 0 <= t < 8 implies #[trigger] d.subrange(8 + p + 4 + nl, 8 + p + 12 + nl)[t]
        == u64_le(entry_offset(w, k) as u64)[t] by {
        assert(d[8 + p + (4 + nl + t)] == row[4 + nl + t]);
        assert(row[4 + nl + t] == u64_le(entry_offset(w, k) as u64)[t]);
    }
    assert(d.subrange(8 + p + 4 + nl, 8 + p + 12 + nl) =~= u64_le(entry_offset(w, k) as u64));
    assert forall|t: int| 0 <= t < 8 implies #[trigger] d.subrange(8 + p + 12 + nl, 8 + p + 20 + nl)[t]
        == u64_le(w[k].data.len() as u64)[t] by {
        assert(d[8 + p + (12 + nl + t)] == row[12 + nl + t]);
        assert(row[12 + nl + t] == u64_le(w[k].data.len() as u64)[t]);
    }
    assert(d.subrange(8 + p + 12 + nl, 8 + p + 20 + nl) =~= u64_le(w[k].data.len() as u64));
}

/// Where the canonical stream keeps payload `k`, and that it lies within
/// the stream.
proof fn lemma_canonical_payload(w: Seq<EntryModel>, k: int, d: Seq<u8>)
    requires
        wf_entries(w),
        mvgl_bytes(w) == d,
        0 <= k < w.len(),
    ensures
        d.len() == mvgl_len(w),
        entry_offset(w, k) + w[k].data.len() <= mvgl_len(w),
        entry_offset(w, k) == 8 + table_len(w) + payload_len(w.subrange(0, k)),
        d.subrange(entry_offset(w, k), entry_offset(w, k) + w[k].data.len()) == w[k].data,
{
    let ps = 8 + table_len(w);
    lemma_mvgl_lens(w, ps);
    lemma_payload_prefix(w, k);
    lemma_payload_prefix(w, k + 1);
    assert(w.subrange(0, k + 1).drop_last() =~= w.subrange(0, k));
    assert(w.subrange(0, k + 1).last() == w[k]);
    lemma_mvgl_lens(w.subrange(0, k), 0);
    lemma_mvgl_lens(w.subrange(0, k + 1), 0);
    assert(d.subrange(ps, ps + payload_len(w)) =~= payload_bytes(w));
    let q = payload_len(w.subrange(0, k));
    let dl = w[k].data.len() as int;
    assert(payload_bytes(w.subrange(0, k + 1)) =~= payload_bytes(w.subrange(0, k))
        + w[k].data);
    assert(payload_len(w.subrange(0, k + 1)) == q + dl);
    assert(payload_bytes(w).subrange(0, q + dl) =~= payload_bytes(w.subrange(0, k))
        + w[k].data);
    assert forall|t: int| 0 <= t < dl implies #[trigger] d[ps + q + t] == w[k].data[t] by {
        assert((payload_bytes(w.subrange(0, k)) + w[k].data)[q + t] == w[k].data[t]);
        assert(payload_bytes(w).subrange(0, q + dl)[q + t] == payload_bytes(w)[q + t]);
        assert(d.subrange(ps, ps + payload_len(w))[q + t] == d[ps + q + t]);
    }
    assert forall|t: int| 0 <= t < dl implies #[trigger] d.subrange(ps + q, ps + q + dl)[t]
        == w[k].data[t] by {
        assert(d[ps + q + t] == w[k].data[t]);
    }
    assert(d.subrange(ps + q, ps + q + dl) =~= w[k].data);
}

/// The header of the canonical stream: its length, its magic, its count.
proof fn lemma_canonical_header(w: Seq<EntryModel>, d: Seq<u8>)
    requires
        wf_entries(w),
        mvgl_bytes(w) == d,
    ensures
        d.len() == mvgl_len(w),
        d.len() >= 8,
        d.subrange(0, 4) == mvgl_magic(),
        d.subrange(4, 8) == u32_le(w.len() as u32),
{
    lemma_mvgl_lens(w, 8 + table_len(w));
    assert(d.subrange(0, 4) =~= mvgl_magic());
    assert(d.subrange(4, 8) =~= u32_le(w.len() as u32));
}

/// Decodes a complete archive byte stream back into its entries, tracking
/// the cumulative offset in `cur`, so that any failure can be reported as
/// "failed after consuming N bytes".
///
/// Decoding succeeds exactly on the streams that some well-formed entry
/// sequence encodes: on success the returned entries re-encode, via
/// `mvgl_bytes`, to exactly the input, and on failure no well-formed entry
/// sequence encodes the input at all. The accepted layout is the canonical
/// one `pack_archive` emits: payloads in table order, sequentially, with no
/// gaps. A wrong magic, an impossible count or a stored offset that breaks
/// that layout fails with `MalformedHeader`; a table or payload that needs
/// more bytes than remain fails with `TruncatedFile`.
#[verifier::rlimit(80)]
pub fn unpack_archive_at(data: &Vec<u8>, cur: &mut Cursor) -> (r: Result<Vec<Entry>, CodecError>)
    requires
        old(cur).pos == 0,
    ensures
        match r {
            Ok(es) => {
                &&& wf_entries(view_entries(es@))
                &&& mvgl_bytes(view_entries(es@)) == data@
                &&& mvgl_len(view_entries(es@)) == data@.len()
                &&& archive_decodable(data@)
                &&& view_entries(es@) == decoded_archive(data@)
                &&& final(cur).pos == data@.len()
            },
            Err(_) => final(cur).pos <= data@.len() && !archive_decodable(data@),
        },
{
    let magic = match cur.read_bytes(data, 4) {
        Ok(v) => v,
        Err(_) => {
            proof {
                if archive_decodable(data@) {
                    let w = decoded_archive(data@);
                    assert(wf_entries(w) && mvgl_bytes(w) == data@);
                    lemma_canonical_header(w, data@);
                }
            }
            return Err(CodecError::MalformedHeader);
        },
    };
    if !(magic[0] == 77 && magic[1] == 86 && magic[2] == 71 && magic[3] == 76) {
        proof {
            if archive_decodable(data@) {
                let w = decoded_archive(data@);
                assert(wf_entries(w) && mvgl_bytes(w) == data@);
                lemma_canonical_header(w, data@);
                assert(data@[0] == mvgl_magic()[0]);
                assert(data@[1] == mvgl_magic()[1]);
                assert(data@[2] == mvgl_magic()[2]);
                assert(data@[3] == mvgl_magic()[3]);
            }
        }
        return Err(CodecError::MalformedHeader);
    }
    assert(data@.subrange(0, 4) =~= mvgl_magic());
    let count = match cur.read_u32(data) {
        Ok(v) => v,
        Err(_) => {
            proof {
                if archive_decodable(data@) {
                    let w = decoded_archive(data@);
                    assert(wf_entries(w) && mvgl_bytes(w) == data@);
                    lemma_canonical_header(w, data@);
                }
            }
            return Err(CodecError::MalformedHeader);
        },
    };
    proof {
        crate::bytes::lemma_u32_bytes_roundtrip(data@.subrange(4, 8));
        assert(data@.subrange(0, 8) =~= data@.subrange(0, 4) + data@.subrange(4, 8));
        if archive_decodable(data@) {
            let w = decoded_archive(data@);
            assert(wf_entries(w) && mvgl_bytes(w) == data@);
            lemma_canonical_header(w, data@);
            crate::bytes::lemma_u32_le_injective(count, w.len() as u32);
            assert(count as int == w.len());
            assert(w.subrange(0, 0) =~= Seq::<EntryModel>::empty());
        }
    }
    let n: usize = count as usize;

    let mut names: Vec<Vec<u8>> = Vec::new();
    let mut offs: Vec<u64> = Vec::new();
    let mut sizes: Vec<u64> = Vec::new();
    let mut k: usize = 0;
    while k < n
        invariant
            k <= n,
            n == count as int,
            names@.len() == k,
            offs@.len() == k,
            sizes@.len() == k,
            cur.pos <= data@.len(),
            data@.subrange(0, cur.pos as int) == mvgl_magic() + u32_le(count) + raw_rows_bytes(
                names@, offs@, sizes@),
            forall|j: int| 0 <= j < k ==> (#[trigger] names@[j])@.len() <= 0xffff_ffff,
            archive_decodable(data@) ==> ({
                let w = decoded_archive(data@);
                &&& count as int == w.len()
                &&& cur.pos as int == 8 + table_len(w.subrange(0, k as int))
                &&& forall|j: int| 0 <= j < k ==> {
                    &&& (#[trigger] names@[j])@ == w[j].name
                    &&& offs@[j] == entry_offset(w, j) as u64
                    &&& sizes@[j] == w[j].data.len() as u64
                }
            }),
        decreases n - k,
    {
        let ghost p0 = cur.pos as int;
        let name_len = match cur.read_u32(data) {
            Ok(v) => v,
            Err(_) => {
                proof {
                    if archive_decodable(data@) {
                        let w = decoded_archive(data@);
                        assert(wf_entries(w) && mvgl_bytes(w) == data@);
                        lemma_canonical_row(w, k as int, data@);
                    }
                }
                return Err(CodecError::TruncatedFile);
            },
        };
        proof {
            crate::bytes::lemma_u32_bytes_roundtrip(data@.subrange(p0, p0 + 4));
            if archive_decodable(data@) {
                let w = decoded_archive(data@);
                assert(wf_entries(w) && mvgl_bytes(w) == data@);
                lemma_canonical_row(w, k as int, data@);
                crate::bytes::lemma_u32_le_injective(name_len, w[k as int].name.len() as u32);
                assert(name_len as int == w[k as int].name.len());
            }
        }
        let name = match cur.read_bytes(data, name_len as usize) {
            Ok(v) => v,
            Err(_) => {
                proof {
                    if archive_decodable(data@) {
                        let w = decoded_archive(data@);
                        assert(wf_entries(w) && mvgl_bytes(w) == data@);
                        lemma_canonical_row(w, k as int, data@);
                    }
                }
                return Err(CodecError::TruncatedFile);
            },
        };
        let off = match cur.read_u64(data) {
            Ok(v) => v,
            Err(_) => {
                proof {
                    if archive_decodable(data@) {
                        let w = decoded_archive(data@);
                        assert(wf_entries(w) && mvgl_bytes(w) == data@);
                        lemma_canonical_row(w, k as int, data@);
                    }
                }
                return Err(CodecError::TruncatedFile);
            },
        };
        let size = match cur.read_u64(data) {
            Ok(v) => v,
            Err(_) => {
                proof {
                    if archive_decodable(data@) {
                        let w = decoded_archive(data@);
                        assert(wf_entries(w) && mvgl_bytes(w) == data@);
                        lemma_canonical_row(w, k as int, data@);
                    }
                }
                return Err(CodecError::TruncatedFile);
            },
        };
        proof {
            crate::bytes::lemma_u64_bytes_roundtrip(data@.subrange(p0 + 4 + name_len as int,
                p0 + 12 + name_len as int));
            crate::bytes::lemma_u64_bytes_roundtrip(data@.subrange(p0 + 12 + name_len as int,
                p0 + 20 + name_len as int));
        }
        let ghost onames = names@;
        let ghost ooffs = offs@;
        let ghost osizes = sizes@;
        names.push(name);
        offs.push(off);
        sizes.push(size);
        proof {
            assert(names@.drop_last() =~= onames);
            assert(offs@.drop_last() =~= ooffs);
            assert(sizes@.drop_last() =~= osizes);
            assert(names@.last()@.len() as u32 == name_len);
            assert(data@.subrange(0, cur.pos as int) =~= data@.subrange(0, p0) + data@.subrange(
                p0, p0 + 4) + data@.subrange(p0 + 4, p0 + 4 + name_len as int) + data@.subrange(
                p0 + 4 + name_len as int, p0 + 12 + name_len as int) + data@.subrange(
                p0 + 12 + name_len as int, p0 + 20 + name_len as int));
            assert(data@.subrange(0, cur.pos as int) =~= mvgl_magic() + u32_le(count)
                + raw_rows_bytes(names@, offs@, sizes@));
            if archive_decodable(data@) {
                let w = decoded_archive(data@);
                assert(wf_entries(w) && mvgl_bytes(w) == data@);
                lemma_canonical_row(w, k as int, data@);
                assert(name@ == w[k as int].name);
                crate::bytes::lemma_u64_le_injective(off, entry_offset(w, k as int) as u64);
                crate::bytes::lemma_u64_le_injective(size, w[k as int].data.len() as u64);
                assert(w.subrange(0, k + 1).drop_last() =~= w.subrange(0, k as int));
                assert(w.subrange(0, k + 1).last() == w[k as int]);
                assert(cur.pos as int == 8 + table_len(w.subrange(0, k + 1)));
            }
        }
        k = k + 1;
    }
    let ps: usize = cur.offset();
    let ghost gnames = names@;
    let ghost goffs = offs@;
    let ghost gsizes = sizes@;
    proof {
        if archive_decodable(data@) {
            let w = decoded_archive(data@);
            assert(w.subrange(0, n as int) =~= w);
            assert(ps as int == 8 + table_len(w));
            assert(w.subrange(0, 0) =~= Seq::<EntryModel>::empty());
            assert forall|j: int| 0 <= j < n implies (#[trigger] goffs[j]) == entry_offset(w,
                j) as u64 && gsizes[j] == w[j].data.len() as u64 by {
                assert(names@[j]@ == w[j].name);
                assert(offs@[j] == entry_offset(w, j) as u64);
                assert(sizes@[j] == w[j].data.len() as u64);
            }
        }
    }

    let mut entries: Vec<Entry> = Vec::new();
    let mut k: usize = 0;
    while k < n
        invariant
            k <= n,
            n == count as int,
            gnames.len() == n,
            goffs == offs@,
            gsizes == sizes@,
            offs@.len() == n,
            sizes@.len() == n,
            names@ =~= gnames.subrange(k as int, n as int),
            entries@.len() == k,
            cur.pos <= data@.len(),
            ps <= cur.pos,
            cur.pos as int == ps + payload_len(view_entries(entries@)),
            data@.subrange(0, ps as int) == mvgl_magic() + u32_le(count) + raw_rows_bytes(gnames,
                goffs, gsizes),
            data@.subrange(0, cur.pos as int) == data@.subrange(0, ps as int) + payload_bytes(
                view_entries(entries@)),
            forall|j: int| 0 <= j < k ==> view_entries(entries@)[j].name == (
            #[trigger] gnames[j])@,
            forall|j: int| 0 <= j < k ==> (#[trigger] goffs[j]) as int == ps + payload_len(
                view_entries(entries@).subrange(0, j)),
            forall|j: int| 0 <= j < k ==> (#[trigger] gsizes[j]) as int == view_entries(
                entries@)[j].data.len(),
            forall|j: int| 0 <= j < n ==> (#[trigger] gnames[j])@.len() <= 0xffff_ffff,
            archive_decodable(data@) ==> ({
                let w = decoded_archive(data@);
                &&& count as int == w.len()
                &&& ps as int == 8 + table_len(w)
                &&& cur.pos as int == 8 + table_len(w) + payload_len(w.subrange(0, k as int))
                &&& forall|j: int| 0 <= j < n ==> (#[trigger] goffs[j]) == entry_offset(w,
                    j) as u64 && gsizes[j] == w[j].data.len() as u64
            }),
        decreases n - k,
    {
        let ghost old_vm = view_entries(entries@);
        if offs[k] != cur.offset() as u64 {
            proof {
                if archive_decodable(data@) {
                    let w = decoded_archive(data@);
                    assert(wf_entries(w) && mvgl_bytes(w) == data@);
                    lemma_canonical_payload(w, k as int, data@);
                    assert(goffs[k as int] == entry_offset(w, k as int) as u64);
                    assert(entry_offset(w, k as int) == cur.pos as int);
                }
            }
            return Err(CodecError::MalformedHeader);
        }
        let size = sizes[k];
        if size > data.len() as u64 {
            proof {
                if archive_decodable(data@) {
                    let w = decoded_archive(data@);
                    assert(wf_entries(w) && mvgl_bytes(w) == data@);
                    lemma_canonical_payload(w, k as int, data@);
                    assert(size == w[k as int].data.len() as u64);
                }
            }
            return Err(CodecError::TruncatedFile);
        }
        let payload = match cur.read_bytes(data, size as usize) {
            Ok(v) => v,
            Err(_) => {
                proof {
                    if archive_decodable(data@) {
                        let w = decoded_archive(data@);
                        assert(wf_entries(w) && mvgl_bytes(w) == data@);
                        lemma_canonical_payload(w, k as int, data@);
                        assert(size == w[k as int].data.len() as u64);
                        assert(entry_offset(w, k as int) == cur.pos as int);
                    }
                }
                return Err(CodecError::TruncatedFile);
            },
        };
        let name = names.remove(0);
        entries.push(Entry { name, data: payload });
        proof {
            let vm = view_entries(entries@);
            assert(vm =~= old_vm.push(entries@.last()@));
            assert(vm.drop_last() =~= old_vm);
            assert(names@ =~= gnames.subrange(k + 1, n as int));
            assert(data@.subrange(0, cur.pos as int) =~= data@.subrange(0, ps as int)
                + payload_bytes(old_vm) + data@.subrange(cur.pos - size as int,
                cur.pos as int));
            assert forall|j: int| 0 <= j < k + 1 implies (#[trigger] goffs[j]) as int == ps
                + payload_len(vm.subrange(0, j)) by {
                if j < k {
                    assert(vm.subrange(0, j) =~= old_vm.subrange(0, j));
                } else {
                    assert(vm.subrange(0, j) =~= old_vm);
                }
            }
            if archive_decodable(data@) {
                let w = decoded_archive(data@);
                assert(wf_entries(w) && mvgl_bytes(w) == data@);
                lemma_canonical_payload(w, k as int, data@);
                assert(size == w[k as int].data.len() as u64);
                assert(w.subrange(0, k + 1).drop_last() =~= w.subrange(0, k as int));
                assert(w.subrange(0, k + 1).last() == w[k as int]);
                assert(cur.pos as int == 8 + table_len(w) + payload_len(w.subrange(0, k + 1)));
            }
        }
        k = k + 1;
    }
    if cur.offset() != data.len() {
        proof {
            if archive_decodable(data@) {
                let w = decoded_archive(data@);
                assert(wf_entries(w) && mvgl_bytes(w) == data@);
                lemma_mvgl_lens(w, 8 + table_len(w));
                assert(w.subrange(0, n as int) =~= w);
                assert(cur.pos as int == mvgl_len(w));
            }
        }
        return Err(CodecError::MalformedHeader);
    }
    proof {
        let vm = view_entries(entries@);
        lemma_raw_rows_len(gnames, goffs, gsizes, vm);
        lemma_raw_rows_table(gnames, goffs, gsizes, vm, ps as int);
        lemma_mvgl_lens(vm, ps as int);
        assert(ps as int == 8 + table_len(vm)) by {
            assert(data@.subrange(0, ps as int).len() == ps as int);
        }
        assert(vm.len() as u32 == count);
        assert(data@ =~= data@.subrange(0, data@.len() as int));
        assert(data@ =~= mvgl_bytes(vm));
        assert forall|i: int| 0 <= i < vm.len() implies (#[trigger] vm[i]).name.len()
            <= 0xffff_ffff by {
            assert(vm[i].name == gnames[i]@);
        }
        assert(mvgl_len(vm) == data@.len());
        assert(data@.len() <= usize::MAX);
        assert(wf_entries(vm));
        assert(archive_decodable(data@));
        let w = decoded_archive(data@);
        assert(wf_entries(w) && mvgl_bytes(w) == data@);
        lemma_mvgl_bytes_injective(vm, w);
    }
    Ok(entries)
}

/// Decodes a complete archive byte stream back into its entries; see
/// `unpack_archive_at`, which also reports the offset a failed decode
/// reached. Decoding succeeds exactly on the streams that some well-formed
/// entry sequence encodes.
pub fn unpack_archive(data: &Vec<u8>) -> (r: Result<Vec<Entry>, CodecError>)
    ensures
        match r {
            Ok(es) => {
                &&& wf_entries(view_entries(es@))
                &&& mvgl_bytes(view_entries(es@)) == data@
                &&& mvgl_len(view_entries(es@)) == data@.len()
                &&& archive_decodable(data@)
                &&& view_entries(es@) == decoded_archive(data@)
            },
            Err(_) => !archive_decodable(data@),
        },
{
    let mut cur = Cursor::new();
    unpack_archive_at(data, &mut cur)
}

/// The index of the first entry with this name, or a negative value when no
/// entry has it.
pub open spec fn find_name(es: Seq<EntryModel>, n: Seq<u8>) -> int
    decreases es.len(),
{
    if es.len() == 0 {
        -1
    } else if es[0].name == n {
        0
    } else {
        let r = find_name(es.subrange(1, es.len() as int), n);
        if r < 0 {
            -1
        } else {
            r + 1
        }
    }
}

/// `find_name` returns the index of the first entry with the name, and a
/// negative value exactly when no entry has it.
pub proof fn lemma_find_name(es: Seq<EntryModel>, n: Seq<u8>)
    ensures
        find_name(es, n) < 0 ==> (forall|i: int| 0 <= i < es.len() ==> (#[trigger] es[i]).name
            != n),
        find_name(es, n) >= 0 ==> {
            &&& find_name(es, n) < es.len()
            &&& es[find_name(es, n)].name == n
            &&& forall|i: int| 0 <= i < find_name(es, n) ==> (#[trigger] es[i]).name != n
        },
    decreases es.len(),
{
    if es.len() > 0 && es[0].name != n {
        let tail = es.subrange(1, es.len() as int);
        lemma_find_name(tail, n);
        let ft = find_name(tail, n);
        if ft < 0 {
            assert forall|i: int| 0 <= i < es.len() implies (#[trigger] es[i]).name != n by {
                if i > 0 {
                    assert(tail[i - 1] == es[i]);
                    assert(tail[i - 1].name != n);
                }
            }
        } else {
            assert(find_name(es, n) == ft + 1);
            assert(es[ft + 1] == tail[ft]);
            assert forall|i: int| 0 <= i < ft + 1 implies (#[trigger] es[i]).name != n by {
                if i > 0 {
                    assert(tail[i - 1] == es[i]);
                    assert(tail[i - 1].name != n);
                }
            }
        }
    }
}

/// Finds the first entry with this name.
pub fn find_entry(es: &Vec<Entry>, name: &Vec<u8>) -> (r: Option<usize>)
    ensures
        match r {
            Some(i) => i < es@.len() && find_name(view_entries(es@), name@) == i,
            None => find_name(view_entries(es@), name@) < 0,
        },
{
    let ghost vm = view_entries(es@);
    let mut i: usize = 0;
    while i < es.len()
        invariant
            i <= es@.len(),
            vm == view_entries(es@),
            forall|j: int| 0 <= j < i ==> (#[trigger] vm[j]).name != name@,
        decreases es@.len() - i,
    {
        if crate::bytes::bytes_eq(&es[i].name, name) {
            proof {
                lemma_find_name(vm, name@);
                let f = find_name(vm, name@);
                assert(vm[i as int].name == name@);
                if f < 0 {
                    assert(vm[i as int].name != name@);
                }
                if f > i as int {
                    assert(vm[i as int].name != name@);
                }
            }
            return Some(i);
        }
        i = i + 1;
    }
    proof {
        lemma_find_name(vm, name@);
        let f = find_name(vm, name@);
        if f >= 0 {
            assert(vm[f].name != name@);
        }
    }
    None
}

/// The data an entry carries once a patch archive has been laid over it: the
/// first patch entry of the same name wins, otherwise the entry is kept.
pub open spec fn override_entry(e: EntryModel, patch: Seq<EntryModel>) -> EntryModel {
    if find_name(patch, e.name) >= 0 {
        EntryModel { name: e.name, data: patch[find_name(patch, e.name)].data }
    } else {
        e
    }
}

/// The base entries, each overridden by the patch where the patch has its
/// name, in base order.
pub open spec fn merged_base(base: Seq<EntryModel>, patch: Seq<EntryModel>) -> Seq<EntryModel> {
    base.map_values(|e: EntryModel| override_entry(e, patch))
}

/// The patch entries whose names the base lacks, in patch order.
pub open spec fn patch_extras(base: Seq<EntryModel>, patch: Seq<EntryModel>) -> Seq<EntryModel>
    decreases patch.len(),
{
    if patch.len() == 0 {
        Seq::<EntryModel>::empty()
    } else {
        patch_extras(base, patch.drop_last()) + if find_name(base, patch.last().name) < 0 {
            seq![patch.last()]
        } else {
            Seq::<EntryModel>::empty()
        }
    }
}

/// The merge of a patch archive over a base archive: every base entry, with
/// its data overridden where the patch carries the same name, followed by the
/// patch entries the base does not know, in patch order.
pub open spec fn merge_spec(base: Seq<EntryModel>, patch: Seq<EntryModel>) -> Seq<EntryModel> {
    merged_base(base, patch) + patch_extras(base, patch)
}

/// Lays a patch archive over a base archive, entry by entry, as `merge_spec`
/// prescribes.
pub fn merge_archives(base: &Vec<Entry>, patch: &Vec<Entry>) -> (r: Vec<Entry>)
    ensures
        view_entries(r@) == merge_spec(view_entries(base@), view_entries(patch@)),
{
    let ghost bm = view_entries(base@);
    let ghost pm = view_entries(patch@);
    let mut out: Vec<Entry> = Vec::new();
    let mut i: usize = 0;
    while i < base.len()
        invariant
            i <= base@.len(),
            bm == view_entries(base@),
            pm == view_entries(patch@),
            view_entries(out@) =~= merged_base(bm, pm).subrange(0, i as int),
        decreases base@.len() - i,
    {
        let ghost before = view_entries(out@);
        let name = crate::bytes::copy_bytes(&base[i].name);
        match find_entry(patch, &base[i].name) {
            Some(j) => {
                let data = crate::bytes::copy_bytes(&patch[j].data);
                out.push(Entry { name, data });
            },
            None => {
                let data = crate::bytes::copy_bytes(&base[i].data);
                out.push(Entry { name, data });
            },
        }
        proof {
            assert(view_entries(out@) =~= before.push(out@.last()@));
            assert(out@.last()@ =~= override_entry(bm[i as int], pm));
            assert(view_entries(out@) =~= merged_base(bm, pm).subrange(0, i + 1));
        }
        i = i + 1;
    }
    proof {
        assert(merged_base(bm, pm).subrange(0, base@.len() as int) =~= merged_base(bm, pm));
    }
    let mut j: usize = 0;
    while j < patch.len()
        invariant
            j <= patch@.len(),
            bm == view_entries(base@),
            pm == view_entries(patch@),
            view_entries(out@) =~= merged_base(bm, pm) + patch_extras(bm, pm.subrange(0,
                j as int)),
        decreases patch@.len() - j,
    {
        let ghost before = view_entries(out@);
        proof {
            assert(pm.subrange(0, j + 1).drop_last() =~= pm.subrange(0, j as int));
            assert(pm.subrange(0, j + 1).last() == pm[j as int]);
        }
        match find_entry(base, &patch[j].name) {
            Some(_) => {
                proof {
                    assert(view_entries(out@) =~= merged_base(bm, pm) + patch_extras(bm,
                        pm.subrange(0, j + 1)));
                }
            },
            None => {
                let name = crate::bytes::copy_bytes(&patch[j].name);
                let data = crate::bytes::copy_bytes(&patch[j].data);
                out.push(Entry { name, data });
                proof {
                    assert(view_entries(out@) =~= before.push(out@.last()@));
                    assert(out@.last()@ =~= pm[j as int]);
                    assert(view_entries(out@) =~= merged_base(bm, pm) + patch_extras(bm,
                        pm.subrange(0, j + 1)));
                }
            },
        }
        j = j + 1;
    }
    proof {
        assert(pm.subrange(0, patch@.len() as int) =~= pm);
        assert(view_entries(out@) =~= merge_spec(bm, pm));
    }
    out
}

/// Whether a byte string ends with the given suffix.
pub open spec fn ends_with(s: Seq<u8>, suffix: Seq<u8>) -> bool {
    s.len() >= suffix.len() && s.subrange(s.len() - suffix.len(), s.len() as int) == suffix
}

/// The extension given to image payloads inside an archive.
pub open spec fn img_ext() -> Seq<u8> {
    seq![46u8, 105u8, 109u8, 103u8]
}

/// The editor-friendly extension image payloads are renamed to on extraction.
pub open spec fn dds_ext() -> Seq<u8> {
    seq![46u8, 100u8, 100u8, 115u8]
}

/// The name an entry is written under on extraction: an image extension is
/// rewritten to the editor-friendly one; any other name is kept.
pub open spec fn extract_name_spec(n: Seq<u8>) -> Seq<u8> {
    if ends_with(n, img_ext()) {
        n.subrange(0, n.len() - 4) + dds_ext()
    } else {
        n
    }
}

/// The inverse rename applied when packing a directory back into an archive.
pub open spec fn pack_name_spec(n: Seq<u8>) -> Seq<u8> {
    if ends_with(n, dds_ext()) {
        n.subrange(0, n.len() - 4) + img_ext()
    } else {
        n
    }
}

/// Checks whether the last four bytes of a name are the given four.
pub(crate) fn has_ext(name: &Vec<u8>, e0: u8, e1: u8, e2: u8, e3: u8) -> (r: bool)
    ensures
        r == ends_with(name@, seq![e0, e1, e2, e3]),
{
    let n = name.len();
    if n < 4 {
        return false;
    }
    let r = name[n - 4] == e0 && name[n - 3] == e1 && name[n - 2] == e2 && name[n - 1] == e3;
    proof {
        let suf = seq![e0, e1, e2, e3];
        if r {
            assert(name@.subrange(n - 4, n as int) =~= suf);
        } else {
            if ends_with(name@, suf) {
                assert(name@.subrange(n - 4, n as int)[0] == name@[n - 4]);
                assert(name@.subrange(n - 4, n as int)[1] == name@[n - 3]);
                assert(name@.subrange(n - 4, n as int)[2] == name@[n - 2]);
                assert(name@.subrange(n - 4, n as int)[3] == name@[n - 1]);
            }
        }
    }
    r
}

/// Replaces the last four bytes of a name with the given four.
fn swap_ext(name: &Vec<u8>, e0: u8, e1: u8, e2: u8, e3: u8) -> (r: Vec<u8>)
    requires
        name@.len() >= 4,
    ensures
        r@ == name@.subrange(0, name@.len() - 4) + seq![e0, e1, e2, e3],
{
    let mut r: Vec<u8> = Vec::new();
    let stem = name.len() - 4;
    let mut i: usize = 0;
    while i < stem
        invariant
            i <= stem,
            stem == name@.len() - 4,
            r@ == name@.subrange(0, i as int),
        decreases stem - i,
    {
        r.push(name[i]);
        i = i + 1;
        assert(r@ =~= name@.subrange(0, i as int));
    }
    r.push(e0);
    r.push(e1);
    r.push(e2);
    r.push(e3);
    assert(r@ =~= name@.subrange(0, name@.len() - 4) + seq![e0, e1, e2, e3]);
    r
}

/// The filename transform applied when an entry is written out: `.img`
/// becomes `.dds`.
pub fn rename_for_extract(name: &Vec<u8>) -> (r: Vec<u8>)
    ensures
        r@ == extract_name_spec(name@),
{
    if has_ext(name, 46, 105, 109, 103) {
        swap_ext(name, 46, 100, 100, 115)
    } else {
        crate::bytes::copy_bytes(name)
    }
}

/// The filename transform applied when a directory is packed: `.dds` becomes
/// `.img` again.
pub fn rename_for_pack(name: &Vec<u8>) -> (r: Vec<u8>)
    ensures
        r@ == pack_name_spec(name@),
{
    if has_ext(name, 46, 100, 100, 115) {
        swap_ext(name, 46, 105, 109, 103)
    } else {
        crate::bytes::copy_bytes(name)
    }
}

/// Packing undoes the extraction rename: for any name that does not already
/// carry the editor-friendly extension, renaming for extraction and then for
/// packing yields the name again.
pub proof fn lemma_rename_roundtrip(n: Seq<u8>)
    requires
        !ends_with(n, dds_ext()),
    ensures
        pack_name_spec(extract_name_spec(n)) == n,
{
    if ends_with(n, img_ext()) {
        let ex = n.subrange(0, n.len() - 4) + dds_ext();
        assert(ex.subrange(ex.len() - 4, ex.len() as int) =~= dds_ext());
        assert(ex.subrange(0, ex.len() - 4) =~= n.subrange(0, n.len() - 4));
        assert(pack_name_spec(ex) =~= n);
    }
}

/// The bytes of one table row, given the absolute offset its payload gets.
pub open spec fn row_bytes(e: EntryModel, off: int) -> Seq<u8> {
    u32_le(e.name.len() as u32) + e.name + u64_le(off as u64) + u64_le(e.data.len() as u64)
}

/// Head decomposition of the entry table: the first row, then the table of
/// the remaining entries with the payload base moved past the first payload.
proof fn lemma_table_head(es: Seq<EntryModel>, ps: int)
    requires
        es.len() > 0,
    ensures
        table_bytes(es, ps) == row_bytes(es[0], ps) + table_bytes(es.subrange(1,
            es.len() as int), ps + es[0].data.len()),
    decreases es.len(),
{
    let tail = es.subrange(1, es.len() as int);
    if es.len() == 1 {
        assert(es.drop_last() =~= Seq::<EntryModel>::empty());
        assert(tail =~= Seq::<EntryModel>::empty());
        assert(table_bytes(es.drop_last(), ps) == Seq::<u8>::empty());
        assert(table_bytes(tail, ps + es[0].data.len()) == Seq::<u8>::empty());
        assert(payload_len(es.drop_last()) == 0);
        assert(es.last() == es[0]);
        assert(table_bytes(es, ps) =~= row_bytes(es[0], ps) + table_bytes(tail, ps
            + es[0].data.len()));
    } else {
        lemma_table_head(es.drop_last(), ps);
        assert(es.drop_last().subrange(1, es.drop_last().len() as int) =~= tail.drop_last());
        assert(es.drop_last()[0] == es[0]);
        assert(tail.last() == es.last());
        lemma_payload_head(es.drop_last());
        assert(payload_len(es.drop_last()) == es[0].data.len() + payload_len(tail.drop_last()));
        let ps0 = ps + es[0].data.len();
        let rl = u32_le(es.last().name.len() as u32) + es.last().name + u64_le((ps + payload_len(
            es.drop_last())) as u64) + u64_le(es.last().data.len() as u64);
        assert(table_bytes(es, ps) =~= table_bytes(es.drop_last(), ps) + rl);
        let rl2 = u32_le(tail.last().name.len() as u32) + tail.last().name + u64_le((ps0
            + payload_len(tail.drop_last())) as u64) + u64_le(tail.last().data.len() as u64);
        assert(table_bytes(tail, ps0) =~= table_bytes(tail.drop_last(), ps0) + rl2);
        assert(rl =~= rl2);
        assert(table_bytes(es, ps) =~= (row_bytes(es[0], ps) + table_bytes(tail.drop_last(),
            ps0)) + rl2);
        assert(table_bytes(es, ps) =~= row_bytes(es[0], ps) + table_bytes(tail, ps0));
    }
}

/// Head decomposition of the payload region and its length.
proof fn lemma_payload_head(es: Seq<EntryModel>)
    requires
        es.len() > 0,
    ensures
        payload_len(es) == es[0].data.len() + payload_len(es.subrange(1, es.len() as int)),
        payload_bytes(es) == es[0].data + payload_bytes(es.subrange(1, es.len() as int)),
    decreases es.len(),
{
    let tail = es.subrange(1, es.len() as int);
    if es.len() == 1 {
        assert(es.drop_last() =~= Seq::<EntryModel>::empty());
        assert(tail =~= Seq::<EntryModel>::empty());
        assert(payload_bytes(es) =~= es[0].data + payload_bytes(tail));
    } else {
        lemma_payload_head(es.drop_last());
        assert(es.drop_last().subrange(1, es.drop_last().len() as int) =~= tail.drop_last());
        assert(es.drop_last()[0] == es[0]);
        assert(tail.last() == es.last());
        assert(payload_bytes(es) =~= es[0].data + payload_bytes(tail));
    }
}

/// A table region determines its rows: if two tables followed by arbitrary
/// suffixes give the same bytes, the rows agree pairwise in name and size,
/// and the suffixes are equal.
#[verifier::rlimit(60)]
proof fn lemma_rows_determined(
    a: Seq<EntryModel>,
    b: Seq<EntryModel>,
    ps1: int,
    ps2: int,
    pa: Seq<u8>,
    pb: Seq<u8>,
)
    requires
        a.len() == b.len(),
        forall|i: int| 0 <= i < a.len() ==> (#[trigger] a[i]).name.len() <= 0xffff_ffff
            && a[i].data.len() <= u64::MAX,
        forall|i: int| 0 <= i < b.len() ==> (#[trigger] b[i]).name.len() <= 0xffff_ffff
            && b[i].data.len() <= u64::MAX,
        table_bytes(a, ps1) + pa == table_bytes(b, ps2) + pb,
    ensures
        forall|i: int| 0 <= i < a.len() ==> (#[trigger] a[i]).name == b[i].name
            && a[i].data.len() == b[i].data.len(),
        pa == pb,
    decreases a.len(),
{
    let s1 = table_bytes(a, ps1) + pa;
    let s2 = table_bytes(b, ps2) + pb;
    if a.len() == 0 {
        assert(pa =~= pb);
    } else {
        lemma_table_head(a, ps1);
        lemma_table_head(b, ps2);
        let at = a.subrange(1, a.len() as int);
        let bt = b.subrange(1, b.len() as int);
        assert(s1.subrange(0, 4) =~= u32_le(a[0].name.len() as u32));
        assert(s2.subrange(0, 4) =~= u32_le(b[0].name.len() as u32));
        crate::bytes::lemma_u32_le_injective(a[0].name.len() as u32, b[0].name.len() as u32);
        let nl = a[0].name.len() as int;
        assert(b[0].name.len() as int == nl);
        assert(s1.subrange(4, 4 + nl) =~= a[0].name);
        assert(s2.subrange(4, 4 + nl) =~= b[0].name);
        assert(a[0].name == b[0].name);
        assert(s1.subrange(12 + nl, 20 + nl) =~= u64_le(a[0].data.len() as u64));
        assert(s2.subrange(12 + nl, 20 + nl) =~= u64_le(b[0].data.len() as u64));
        crate::bytes::lemma_u64_le_injective(a[0].data.len() as u64, b[0].data.len() as u64);
        assert(a[0].data.len() == b[0].data.len());
        assert(s1.subrange(20 + nl, s1.len() as int) =~= table_bytes(at, ps1 + a[0].data.len())
            + pa);
        assert(s2.subrange(20 + nl, s2.len() as int) =~= table_bytes(bt, ps2 + b[0].data.len())
            + pb);
        assert(s1.len() == s2.len());
        lemma_rows_determined(at, bt, ps1 + a[0].data.len(), ps2 + b[0].data.len(), pa, pb);
        assert forall|i: int| 0 <= i < a.len() implies (#[trigger] a[i]).name == b[i].name
            && a[i].data.len() == b[i].data.len() by {
            if i > 0 {
                assert(at[i - 1] == a[i]);
                assert(bt[i - 1] == b[i]);
            }
        }
    }
}

/// A payload region determines its payloads, once the sizes are known.
proof fn lemma_payloads_determined(a: Seq<EntryModel>, b: Seq<EntryModel>)
    requires
        a.len() == b.len(),
        forall|i: int| 0 <= i < a.len() ==> (#[trigger] a[i]).data.len() == b[i].data.len(),
        payload_bytes(a) == payload_bytes(b),
    ensures
        forall|i: int| 0 <= i < a.len() ==> (#[trigger] a[i]).data == b[i].data,
    decreases a.len(),
{
    if a.len() > 0 {
        lemma_payload_head(a);
        lemma_payload_head(b);
        let at = a.subrange(1, a.len() as int);
        let bt = b.subrange(1, b.len() as int);
        let d0 = a[0].data.len() as int;
        assert(payload_bytes(a).subrange(0, d0) =~= a[0].data);
        assert(payload_bytes(b).subrange(0, d0) =~= b[0].data);
        assert(a[0].data == b[0].data);
        lemma_mvgl_lens(a, 0);
        lemma_mvgl_lens(b, 0);
        assert(payload_bytes(a).subrange(d0, payload_bytes(a).len() as int) =~= payload_bytes(
            at));
        assert(payload_bytes(b).subrange(d0, payload_bytes(b).len() as int) =~= payload_bytes(
            bt));
        lemma_payloads_determined(at, bt);
        assert forall|i: int| 0 <= i < a.len() implies (#[trigger] a[i]).data == b[i].data by {
            if i > 0 {
                assert(at[i - 1] == a[i]);
                assert(bt[i - 1] == b[i]);
            }
        }
    }
}

/// An archive byte stream determines its entries: two well-formed entry
/// sequences with the same encoding are the same sequence. Together with the
/// contracts of `pack_archive` (exact encoding) and `unpack_archive`
/// (whatever decodes re-encodes to the input), this is the archive
/// round-trip law: a decode of `pack_archive`'s output can only return the
/// entries that were packed.
pub proof fn lemma_mvgl_bytes_injective(a: Seq<EntryModel>, b: Seq<EntryModel>)
    requires
        wf_entries(a),
        wf_entries(b),
        mvgl_bytes(a) == mvgl_bytes(b),
    ensures
        a == b,
{
    lemma_mvgl_lens(a, 8 + table_len(a));
    lemma_mvgl_lens(b, 8 + table_len(b));
    let s1 = mvgl_bytes(a);
    let s2 = mvgl_bytes(b);
    assert(s1.subrange(4, 8) =~= u32_le(a.len() as u32));
    assert(s2.subrange(4, 8) =~= u32_le(b.len() as u32));
    crate::bytes::lemma_u32_le_injective(a.len() as u32, b.len() as u32);
    assert(a.len() == b.len());
    assert forall|i: int| 0 <= i < a.len() implies (#[trigger] a[i]).data.len() <= u64::MAX by {
        assert(a.subrange(0, i + 1).drop_last() =~= a.subrange(0, i));
        assert(a.subrange(0, i + 1).last() == a[i]);
        lemma_mvgl_prefix_le(a, i + 1);
        lemma_mvgl_lens(a.subrange(0, i), 0);
    }
    assert forall|i: int| 0 <= i < b.len() implies (#[trigger] b[i]).data.len() <= u64::MAX by {
        assert(b.subrange(0, i + 1).drop_last() =~= b.subrange(0, i));
        assert(b.subrange(0, i + 1).last() == b[i]);
        lemma_mvgl_prefix_le(b, i + 1);
        lemma_mvgl_lens(b.subrange(0, i), 0);
    }
    assert(s1.subrange(8, s1.len() as int) =~= table_bytes(a, 8 + table_len(a))
        + payload_bytes(a));
    assert(s2.subrange(8, s2.len() as int) =~= table_bytes(b, 8 + table_len(b))
        + payload_bytes(b));
    lemma_rows_determined(a, b, 8 + table_len(a), 8 + table_len(b), payload_bytes(a),
        payload_bytes(b));
    lemma_payloads_determined(a, b);
    assert forall|i: int| 0 <= i < a.len() implies #[trigger] a[i] == b[i] by {
        assert(a[i] =~= b[i]);
    }
    assert(a =~= b);
}

/// Archive round-trip law: decoding a freshly packed archive always
/// succeeds and yields exactly the packed entry list, name for name and
/// byte for byte.
pub fn unpack_packed_archive(entries: &Vec<Entry>) -> (r: Result<Vec<Entry>, CodecError>)
    requires
        wf_entries(view_entries(entries@)),
        mvgl_len(view_entries(entries@)) <= usize::MAX,
    ensures
        r matches Ok(es) && view_entries(es@) == view_entries(entries@),
{
    let bytes = pack_archive(entries);
    match unpack_archive(&bytes) {
        Ok(es) => {
            proof {
                lemma_mvgl_bytes_injective(view_entries(es@), view_entries(entries@));
            }
            Ok(es)
        },
        Err(e) => {
            proof {
                assert(archive_decodable(bytes@));
                assert(false);
            }
            Err(e)
        },
    }
}

/// Whether some well-formed entry sequence encodes to these bytes.
pub open spec fn archive_decodable(b: Seq<u8>) -> bool {
    exists|es: Seq<EntryModel>| wf_entries(es) && (#[trigger] mvgl_bytes(es)) == b
}

/// The entry sequence an archive byte stream encodes. By
/// `lemma_mvgl_bytes_injective` there is at most one, so this is
/// well-defined whenever `archive_decodable` holds.
pub open spec fn decoded_archive(b: Seq<u8>) -> Seq<EntryModel> {
    choose|es: Seq<EntryModel>| wf_entries(es) && (#[trigger] mvgl_bytes(es)) == b
}

/// Table lengths agree for entry sequences whose names have the same lengths.
proof fn lemma_table_len_same_names(a: Seq<EntryModel>, b: Seq<EntryModel>)
    requires
        a.len() == b.len(),
        forall|i: int| 0 <= i < a.len() ==> (#[trigger] a[i]).name.len() == b[i].name.len(),
    ensures
        table_len(a) == table_len(b),
    decreases a.len(),
{
    if a.len() > 0 {
        lemma_table_len_same_names(a.drop_last(), b.drop_last());
    }
}

/// How a prefix's payload length changes when one entry's data is replaced.
proof fn lemma_payload_prefix_update(a: Seq<EntryModel>, b: Seq<EntryModel>, k: int, j: int)
    requires
        a.len() == b.len(),
        0 <= k < a.len(),
        forall|i: int| 0 <= i < a.len() && i != k ==> (#[trigger] b[i]) == a[i],
        0 <= j <= a.len(),
    ensures
        payload_len(b.subrange(0, j)) == payload_len(a.subrange(0, j)) + if j > k {
            b[k].data.len() - a[k].data.len()
        } else {
            0
        },
    decreases j,
{
    if j > 0 {
        lemma_payload_prefix_update(a, b, k, j - 1);
        assert(a.subrange(0, j).drop_last() =~= a.subrange(0, j - 1));
        assert(b.subrange(0, j).drop_last() =~= b.subrange(0, j - 1));
        assert(a.subrange(0, j).last() == a[j - 1]);
        assert(b.subrange(0, j).last() == b[j - 1]);
    } else {
        assert(a.subrange(0, 0) =~= b.subrange(0, 0));
    }
}

/// Archive-level relocation: replacing the payload of entry `k` (keeping its
/// name) leaves the offsets of entry `k` and of every entry before it
/// unchanged, and shifts the offset of every later entry by exactly the size
/// delta.
pub proof fn lemma_archive_relocation(a: Seq<EntryModel>, b: Seq<EntryModel>, k: int)
    requires
        a.len() == b.len(),
        0 <= k < a.len(),
        forall|i: int| 0 <= i < a.len() && i != k ==> (#[trigger] b[i]) == a[i],
        b[k].name == a[k].name,
    ensures
        table_len(b) == table_len(a),
        forall|i: int| 0 <= i <= k ==> #[trigger] entry_offset(b, i) == entry_offset(a, i),
        forall|i: int| k < i <= a.len() ==> #[trigger] entry_offset(b, i) == entry_offset(a, i)
            + b[k].data.len() - a[k].data.len(),
{
    assert forall|i: int| 0 <= i < a.len() implies (#[trigger] a[i]).name.len()
        == b[i].name.len() by {
        if i != k {
            assert(b[i] == a[i]);
        }
    }
    lemma_table_len_same_names(a, b);
    assert forall|i: int| 0 <= i <= k implies #[trigger] entry_offset(b, i) == entry_offset(a,
        i) by {
        lemma_payload_prefix_update(a, b, k, i);
    }
    assert forall|i: int| k < i <= a.len() implies #[trigger] entry_offset(b, i)
        == entry_offset(a, i) + b[k].data.len() - a[k].data.len() by {
        lemma_payload_prefix_update(a, b, k, i);
    }
}

} // verus!
