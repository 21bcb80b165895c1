use vstd::prelude::*;

use crate::bytes::{bytes_eq, copy_bytes, push_bytes};
use crate::errors::CodecError;
use crate::mbe::view_texts;

verus! {

/// One row of the dialogue table: a stable key and one text cell per
/// language, in the table's language order.
pub struct Row {
    pub key: Vec<u8>,
    pub cells: Vec<Vec<u8>>,
}

/// The mathematical model of a row.
#[verifier::ext_equal]
pub ghost struct RowModel {
    pub key: Seq<u8>,
    pub cells: Seq<Seq<u8>>,
}

impl View for Row {
    type V = RowModel;

    open spec fn view(&self) -> RowModel {
        RowModel { key: self.key@, cells: self.cells@.map_values(|c: Vec<u8>| c@) }
    }
}

/// The language-keyed dialogue table: a column per requested language, a row
/// per dialogue line.
pub struct DialogueTable {
    pub languages: Vec<Vec<u8>>,
    pub rows: Vec<Row>,
}

/// The mathematical model of a table.
#[verifier::ext_equal]
pub ghost struct TableModel {
    pub languages: Seq<Seq<u8>>,
    pub rows: Seq<RowModel>,
}

impl View for DialogueTable {
    type V = TableModel;

    open spec fn view(&self) -> TableModel {
        TableModel {
            languages: view_texts(self.languages@),
            rows: self.rows@.map_values(|r: Row| r@),
        }
    }
}

/// Well-formedness of a table: every row has one cell per language, and no
/// two rows share a key.
pub open spec fn wf_table(t: TableModel) -> bool {
    &&& forall|i: int| 0 <= i < t.rows.len() ==> (#[trigger] t.rows[i]).cells.len()
        == t.languages.len()
    &&& forall|i: int, j: int| 0 <= i < t.rows.len() && 0 <= j < t.rows.len() && i != j ==> (
    #[trigger] t.rows[i]).key != (#[trigger] t.rows[j]).key
}

/// Whether a cell must be quoted: it embeds a separator, a line break or a
/// quote.
pub open spec fn needs_quote(s: Seq<u8>) -> bool {
    s.contains(44u8) || s.contains(10u8) || s.contains(13u8) || s.contains(34u8)
}

/// A cell's content with every quote doubled.
pub open spec fn escape_quotes(s: Seq<u8>) -> Seq<u8>
    decreases s.len(),
{
    if s.len() == 0 {
        Seq::<u8>::empty()
    } else {
        escape_quotes(s.drop_last()) + (if s.last() == 34 {
            seq![34u8, 34u8]
        } else {
            seq![s.last()]
        })
    }
}

/// The bytes a cell is written as: quoted with doubled quotes when it embeds
/// a separator, a line break or a quote, else verbatim.
pub open spec fn cell_bytes(s: Seq<u8>) -> Seq<u8> {
    if needs_quote(s) {
        seq![34u8] + escape_quotes(s) + seq![34u8]
    } else {
        s
    }
}

/// A line's cells, separated by commas.
pub open spec fn cells_joined(cells: Seq<Seq<u8>>) -> Seq<u8>
    decreases cells.len(),
{
    if cells.len() == 0 {
        Seq::<u8>::empty()
    } else if cells.len() == 1 {
        cell_bytes(cells[0])
    } else {
        cells_joined(cells.drop_last()) + seq![44u8] + cell_bytes(cells.last())
    }
}

/// One line: its cells and the terminating line break.
pub open spec fn line_bytes(cells: Seq<Seq<u8>>) -> Seq<u8> {
    cells_joined(cells) + seq![10u8]
}

/// The header cell naming the key column.
pub open spec fn key_header() -> Seq<u8> {
    seq![107u8, 101u8, 121u8]
}

/// The cells of the header line: the key column, then one column per
/// language, in the order the languages were requested.
pub open spec fn header_cells(t: TableModel) -> Seq<Seq<u8>> {
    seq![key_header()] + t.languages
}

/// The cells of one data line: the row's key, then its cells.
pub open spec fn row_cells(r: RowModel) -> Seq<Seq<u8>> {
    seq![r.key] + r.cells
}

/// The data lines, in row order.
pub open spec fn rows_bytes(rows: Seq<RowModel>) -> Seq<u8>
    decreases rows.len(),
{
    if rows.len() == 0 {
        Seq::<u8>::empty()
    } else {
        rows_bytes(rows.drop_last()) + line_bytes(row_cells(rows.last()))
    }
}

/// The tabular text form of a table: the header line, then one line per row.
pub open spec fn csv_bytes(t: TableModel) -> Seq<u8> {
    line_bytes(header_cells(t)) + rows_bytes(t.rows)
}

/// Checks whether a cell must be quoted.
fn cell_needs_quote(c: &Vec<u8>) -> (r: bool)
    ensures
        r == needs_quote(c@),
{
    let mut i: usize = 0;
    while i < c.len()
        invariant
            i <= c@.len(),
            forall|j: int| 0 <= j < i ==> (#[trigger] c@[j]) != 44 && c@[j] != 10 && c@[j] != 13
                && c@[j] != 34,
        decreases c@.len() - i,
    {
        let b = c[i];
        if b == 44 || b == 10 || b == 13 || b == 34 {
            proof {
                assert(0 <= i < c@.len() && c@[i as int] == b);
                assert(c@.contains(b));
            }
            return true;
        }
        i = i + 1;
    }
    proof {
        if c@.contains(44u8) {
            let w = choose|j: int| 0 <= j < c@.len() && c@[j] == 44u8;
            assert(c@[w] != 44);
        }
        if c@.contains(10u8) {
            let w = choose|j: int| 0 <= j < c@.len() && c@[j] == 10u8;
            assert(c@[w] != 10);
        }
        if c@.contains(13u8) {
            let w = choose|j: int| 0 <= j < c@.len() && c@[j] == 13u8;
            assert(c@[w] != 13);
        }
        if c@.contains(34u8) {
            let w = choose|j: int| 0 <= j < c@.len() && c@[j] == 34u8;
            assert(c@[w] != 34);
        }
    }
    false
}

/// Appends one cell in its written form.
fn write_cell(out: &mut Vec<u8>, c: &Vec<u8>)
    ensures
        final(out)@ == old(out)@ + cell_bytes(c@),
{
    if cell_needs_quote(c) {
        out.push(34);
        let ghost base = out@;
        let mut i: usize = 0;
        while i < c.len()
            invariant
                i <= c@.len(),
                out@ == base + escape_quotes(c@.subrange(0, i as int)),
            decreases c@.len() - i,
        {
            let b = c[i];
            proof {
                assert(c@.subrange(0, i + 1).drop_last() =~= c@.subrange(0, i as int));
                assert(c@.subrange(0, i + 1).last() == c@[i as int]);
            }
            out.push(b);
            if b == 34 {
                out.push(34);
            }
            i = i + 1;
            assert(out@ =~= base + escape_quotes(c@.subrange(0, i as int)));
        }
        proof {
            assert(c@.subrange(0, c@.len() as int) =~= c@);
        }
        out.push(34);
        assert(final(out)@ =~= old(out)@ + cell_bytes(c@));
    } else {
        push_bytes(out, c);
    }
}

/// Appends one line: the cells separated by commas, then the line break.
fn write_line(out: &mut Vec<u8>, cells: &Vec<Vec<u8>>)
    ensures
        final(out)@ == old(out)@ + line_bytes(view_texts(cells@)),
{
    let ghost vc = view_texts(cells@);
    if cells.len() > 0 {
        write_cell(out, &cells[0]);
        proof {
            assert(vc.subrange(0, 1) =~= seq![vc[0]]);
            assert(out@ =~= old(out)@ + cells_joined(vc.subrange(0, 1)));
        }
        let mut i: usize = 1;
        while i < cells.len()
            invariant
                1 <= i <= cells@.len(),
                vc == view_texts(cells@),
                out@ == old(out)@ + cells_joined(vc.subrange(0, i as int)),
            decreases cells@.len() - i,
        {
            out.push(44);
            write_cell(out, &cells[i]);
            proof {
                assert(vc.subrange(0, i + 1).drop_last() =~= vc.subrange(0, i as int));
                assert(vc.subrange(0, i + 1).last() == vc[i as int]);
                assert(out@ =~= old(out)@ + cells_joined(vc.subrange(0, i + 1)));
            }
            i = i + 1;
        }
        proof {
            assert(vc.subrange(0, cells@.len() as int) =~= vc);
        }
    }
    out.push(10);
    assert(final(out)@ =~= old(out)@ + line_bytes(vc));
}

/// Serializes a table to its tabular text form: one header line naming the
/// key column and the languages, then one line per row, with a stable
/// quote-and-double-quote escaping for embedded separators, line breaks and
/// quotes.
pub fn to_tabular(t: &DialogueTable) -> (r: Vec<u8>)
    ensures
        r@ == csv_bytes(t@),
{
    let ghost model = t@;
    let mut out: Vec<u8> = Vec::new();

    let mut hcells: Vec<Vec<u8>> = Vec::new();
    let mut kv: Vec<u8> = Vec::new();
    kv.push(107);
    kv.push(101);
    kv.push(121);
    assert(kv@ =~= key_header());
    hcells.push(kv);
    let mut i: usize = 0;
    while i < t.languages.len()
        invariant
            i <= t.languages@.len(),
            model == t@,
            hcells@.len() == i + 1,
            hcells@[0]@ == key_header(),
            forall|j: int| 1 <= j <= i ==> (#[trigger] hcells@[j])@ == model.languages[j - 1],
        decreases t.languages@.len() - i,
    {
        let c = copy_bytes(&t.languages[i]);
        hcells.push(c);
        i = i + 1;
    }
    proof {
        assert forall|j: int| 0 <= j < view_texts(hcells@).len() implies view_texts(
            hcells@)[j] == header_cells(model)[j] by {
            if j > 0 {
                assert(hcells@[j]@ == model.languages[j - 1]);
            }
        }
        assert(view_texts(hcells@) =~= header_cells(model));
    }
    write_line(&mut out, &hcells);

    let mut r: usize = 0;
    while r < t.rows.len()
        invariant
            r <= t.rows@.len(),
            model == t@,
            out@ == line_bytes(header_cells(model)) + rows_bytes(model.rows.subrange(0,
                r as int)),
        decreases t.rows@.len() - r,
    {
        let ghost rm = model.rows[r as int];
        let mut rcells: Vec<Vec<u8>> = Vec::new();
        let key = copy_bytes(&t.rows[r].key);
        rcells.push(key);
        proof {
            assert(rm == t.rows@[r as int]@);
        }
        let mut c: usize = 0;
        while c < t.rows[r].cells.len()
            invariant
                r < t.rows@.len(),
                c <= t.rows@[r as int].cells@.len(),
                model == t@,
                rm == model.rows[r as int],
                rm == t.rows@[r as int]@,
                rcells@.len() == c + 1,
                rcells@[0]@ == rm.key,
                forall|j: int| 1 <= j <= c ==> (#[trigger] rcells@[j])@ == rm.cells[j - 1],
            decreases t.rows@[r as int].cells@.len() - c,
        {
            let cell = copy_bytes(&t.rows[r].cells[c]);
            rcells.push(cell);
            proof {
                assert(rm.cells[c as int] == t.rows@[r as int].cells@[c as int]@);
            }
            c = c + 1;
        }
        proof {
            assert forall|j: int| 0 <= j < view_texts(rcells@).len() implies view_texts(
                rcells@)[j] == row_cells(rm)[j] by {
                if j > 0 {
                    assert(rcells@[j]@ == rm.cells[j - 1]);
                }
            }
            assert(view_texts(rcells@) =~= row_cells(rm));
        }
        write_line(&mut out, &rcells);
        proof {
            assert(model.rows.subrange(0, r + 1).drop_last() =~= model.rows.subrange(0,
                r as int));
            assert(model.rows.subrange(0, r + 1).last() == rm);
            assert(out@ =~= line_bytes(header_cells(model)) + rows_bytes(model.rows.subrange(0,
                r + 1)));
        }
        r = r + 1;
    }
    proof {
        assert(model.rows.subrange(0, t.rows@.len() as int) =~= model.rows);
        assert(out@ =~= csv_bytes(model));
    }
    out
}

/// Reads one cell starting at `*pos`, accepting exactly the written form of
/// `cell_bytes`: a quoted cell must need its quotes, an unquoted cell must
/// not contain a byte that would need them.
fn parse_cell(data: &Vec<u8>, pos: &mut usize) -> (r: Result<Vec<u8>, CodecError>)
    requires
        *old(pos) <= data@.len(),
    ensures
        match r {
            Ok(c) => {
                &&& *old(pos) <= *final(pos) <= data@.len()
                &&& data@.subrange(*old(pos) as int, *final(pos) as int) == cell_bytes(c@)
            },
            Err(e) => e == CodecError::MalformedTable,
        },
{
    let n = data.len();
    let start = *pos;
    if start < n && data[start] == 34 {
        let mut c: Vec<u8> = Vec::new();
        let mut p = start + 1;
        let mut closed = false;
        while p < n
            invariant_except_break
                start + 1 <= p <= n,
                n == data@.len(),
                data@.subrange(start + 1, p as int) == escape_quotes(c@),
                !closed,
            ensures
                start + 1 <= p <= n,
                n == data@.len(),
                closed ==> p >= start + 2 && data@[p - 1] == 34 && data@.subrange(start + 1,
                    p - 1) == escape_quotes(c@),
                !closed ==> p == n && data@.subrange(start + 1, p as int) == escape_quotes(c@),
            decreases n - p,
        {
            let b = data[p];
            let ghost oc = c@;
            if b == 34 {
                if p + 1 < n && data[p + 1] == 34 {
                    c.push(34);
                    proof {
                        assert(c@.drop_last() =~= oc);
                        assert(data@.subrange(start + 1, p + 2) =~= data@.subrange(start + 1,
                            p as int) + seq![data@[p as int], data@[p + 1]]);
                        assert(data@.subrange(start + 1, p + 2) =~= escape_quotes(c@));
                    }
                    p = p + 2;
                } else {
                    p = p + 1;
                    closed = true;
                    break;
                }
            } else {
                c.push(b);
                proof {
                    assert(c@.drop_last() =~= oc);
                    assert(data@.subrange(start + 1, p + 1) =~= data@.subrange(start + 1,
                        p as int) + seq![data@[p as int]]);
                    assert(data@.subrange(start + 1, p + 1) =~= escape_quotes(c@));
                }
                p = p + 1;
            }
        }
        if !closed {
            return Err(CodecError::MalformedTable);
        }
        if !cell_needs_quote(&c) {
            return Err(CodecError::MalformedTable);
        }
        *pos = p;
        proof {
            assert(data@.subrange(start as int, p as int) =~= seq![data@[start as int]]
                + data@.subrange(start + 1, p - 1) + seq![data@[p - 1]]);
            assert(data@.subrange(start as int, p as int) =~= cell_bytes(c@));
        }
        Ok(c)
    } else {
        let mut c: Vec<u8> = Vec::new();
        let mut p = start;
        while p < n && data[p] != 44 && data[p] != 10
            invariant
                start <= p <= n,
                n == data@.len(),
                c@ == data@.subrange(start as int, p as int),
                forall|j: int| 0 <= j < c@.len() ==> (#[trigger] c@[j]) != 44 && c@[j] != 10
                    && c@[j] != 13 && c@[j] != 34,
            decreases n - p,
        {
            let b = data[p];
            if b == 13 || b == 34 {
                return Err(CodecError::MalformedTable);
            }
            c.push(b);
            p = p + 1;
            assert(c@ =~= data@.subrange(start as int, p as int));
        }
        proof {
            if c@.contains(44u8) {
                let w = choose|j: int| 0 <= j < c@.len() && c@[j] == 44u8;
                assert(c@[w] != 44);
            }
            if c@.contains(10u8) {
                let w = choose|j: int| 0 <= j < c@.len() && c@[j] == 10u8;
                assert(c@[w] != 10);
            }
            if c@.contains(13u8) {
                let w = choose|j: int| 0 <= j < c@.len() && c@[j] == 13u8;
                assert(c@[w] != 13);
            }
            if c@.contains(34u8) {
                let w = choose|j: int| 0 <= j < c@.len() && c@[j] == 34u8;
                assert(c@[w] != 34);
            }
            assert(!needs_quote(c@));
        }
        *pos = p;
        Ok(c)
    }
}

/// Reads one line: at least one cell, separated by commas, closed by a line
/// break.
fn parse_line(data: &Vec<u8>, pos: &mut usize) -> (r: Result<Vec<Vec<u8>>, CodecError>)
    requires
        *old(pos) <= data@.len(),
    ensures
        match r {
            Ok(cells) => {
                &&& *old(pos) < *final(pos) <= data@.len()
                &&& cells@.len() >= 1
                &&& data@.subrange(*old(pos) as int, *final(pos) as int) == line_bytes(
                    view_texts(cells@))
            },
            Err(e) => e == CodecError::MalformedTable,
        },
{
    let start = *pos;
    let mut cells: Vec<Vec<u8>> = Vec::new();
    let first = match parse_cell(data, pos) {
        Ok(c) => c,
        Err(e) => { return Err(e); },
    };
    cells.push(first);
    proof {
        assert(view_texts(cells@) =~= seq![cells@[0]@]);
        assert(cells_joined(view_texts(cells@)) == cell_bytes(cells@[0]@));
        assert(data@.subrange(start as int, *pos as int) == cells_joined(view_texts(cells@)));
    }
    while *pos < data.len()
        invariant
            start == *old(pos),
            start <= *pos <= data@.len(),
            cells@.len() >= 1,
            data@.subrange(start as int, *pos as int) == cells_joined(view_texts(cells@)),
        decreases data@.len() - *pos,
    {
        let b = data[*pos];
        if b == 10 {
            let ghost pend = *pos as int;
            *pos = *pos + 1;
            proof {
                assert(data@.subrange(start as int, *pos as int) =~= data@.subrange(
                    start as int, pend) + seq![data@[pend]]);
                assert(data@.subrange(start as int, *pos as int) =~= line_bytes(view_texts(
                    cells@)));
            }
            return Ok(cells);
        }
        if b != 44 {
            return Err(CodecError::MalformedTable);
        }
        let ghost pcomma = *pos as int;
        *pos = *pos + 1;
        let ghost mid = *pos as int;
        let c = match parse_cell(data, pos) {
            Ok(v) => v,
            Err(e) => { return Err(e); },
        };
        let ghost ocells = view_texts(cells@);
        cells.push(c);
        proof {
            assert(view_texts(cells@).drop_last() =~= ocells);
            assert(view_texts(cells@).last() == cells@.last()@);
            assert(cells_joined(view_texts(cells@)) == cells_joined(ocells) + seq![44u8]
                + cell_bytes(cells@.last()@));
            assert(data@.subrange(pcomma, pcomma + 1) =~= seq![44u8]);
            assert(data@.subrange(start as int, *pos as int) =~= data@.subrange(start as int,
                pcomma) + data@.subrange(pcomma, pcomma + 1) + data@.subrange(mid,
                *pos as int));
            assert(data@.subrange(start as int, *pos as int) =~= cells_joined(view_texts(
                cells@)));
        }
    }
    Err(CodecError::MalformedTable)
}

/// The models of a vector of rows.
pub open spec fn view_rows(rs: Seq<Row>) -> Seq<RowModel> {
    rs.map_values(|r: Row| r@)
}

/// Parses the tabular text form back into a table.
///
/// The accepted grammar is the one `to_tabular` writes: on success the
/// returned table is well formed and re-serializes, via `csv_bytes`, to the
/// input byte-for-byte. A missing header, a quoting the writer would not
/// produce, a line whose cell count does not match the header, or a
/// repeated row key fails with `MalformedTable`.
pub fn from_tabular(data: &Vec<u8>) -> (r: Result<DialogueTable, CodecError>)
    ensures
        match r {
            Ok(t) => {
                &&& wf_table(t@)
                &&& csv_bytes(t@) == data@
            },
            Err(e) => e == CodecError::MalformedTable,
        },
{
    let mut pos: usize = 0;
    let header = match parse_line(data, &mut pos) {
        Ok(h) => h,
        Err(e) => { return Err(e); },
    };
    let ghost hc = view_texts(header@);
    let ghost hend = pos as int;
    let mut kv: Vec<u8> = Vec::new();
    kv.push(107);
    kv.push(101);
    kv.push(121);
    assert(kv@ =~= key_header());
    if !bytes_eq(&header[0], &kv) {
        return Err(CodecError::MalformedTable);
    }
    let mut languages: Vec<Vec<u8>> = Vec::new();
    let mut i: usize = 1;
    while i < header.len()
        invariant
            1 <= i <= header@.len(),
            languages@.len() == i - 1,
            forall|j: int| 0 <= j < i - 1 ==> (#[trigger] languages@[j])@ == header@[j + 1]@,
        decreases header@.len() - i,
    {
        let c = copy_bytes(&header[i]);
        languages.push(c);
        i = i + 1;
    }
    let nlang = languages.len();
    let ncols = nlang + 1;

    let mut rows: Vec<Row> = Vec::new();
    while pos < data.len()
        invariant
            pos <= data@.len(),
            nlang == languages@.len(),
            ncols == nlang + 1,
            data@.subrange(0, pos as int) == line_bytes(hc) + rows_bytes(view_rows(rows@)),
            forall|q: int| 0 <= q < rows@.len() ==> (#[trigger] view_rows(
                rows@)[q]).cells.len() == nlang as int,
            forall|q: int, q2: int| 0 <= q < rows@.len() && 0 <= q2 < rows@.len() && q != q2
                ==> (#[trigger] view_rows(rows@)[q]).key != (#[trigger] view_rows(
                rows@)[q2]).key,
        decreases data@.len() - pos,
    {
        let ghost p0 = pos as int;
        let cells = match parse_line(data, &mut pos) {
            Ok(cs) => cs,
            Err(e) => { return Err(e); },
        };
        if cells.len() != ncols {
            return Err(CodecError::MalformedTable);
        }
        let key = copy_bytes(&cells[0]);
        let mut j: usize = 0;
        while j < rows.len()
            invariant
                j <= rows@.len(),
                key@ == cells@[0]@,
                forall|q: int| 0 <= q < j ==> (#[trigger] rows@[q])@.key != key@,
            decreases rows@.len() - j,
        {
            if bytes_eq(&rows[j].key, &key) {
                return Err(CodecError::MalformedTable);
            }
            j = j + 1;
        }
        let mut rc: Vec<Vec<u8>> = Vec::new();
        let mut i2: usize = 1;
        while i2 < cells.len()
            invariant
                1 <= i2 <= cells@.len(),
                rc@.len() == i2 - 1,
                forall|q: int| 0 <= q < i2 - 1 ==> (#[trigger] rc@[q])@ == cells@[q + 1]@,
            decreases cells@.len() - i2,
        {
            let c = copy_bytes(&cells[i2]);
            rc.push(c);
            i2 = i2 + 1;
        }
        let ghost orows = view_rows(rows@);
        rows.push(Row { key, cells: rc });
        proof {
            assert(view_rows(rows@).drop_last() =~= orows);
            assert(view_rows(rows@).last() == rows@.last()@);
            let rm = rows@.last()@;
            assert forall|q: int| 0 <= q < row_cells(rm).len() implies row_cells(rm)[q]
                == view_texts(cells@)[q] by {
                if q > 0 {
                    assert(rm.cells[q - 1] == rc@[q - 1]@);
                    assert(rc@[q - 1]@ == cells@[q]@);
                }
            }
            assert(row_cells(rm) =~= view_texts(cells@));
            assert(rows_bytes(view_rows(rows@)) == rows_bytes(orows) + line_bytes(row_cells(
                rm)));
            assert(data@.subrange(0, pos as int) =~= data@.subrange(0, p0) + data@.subrange(p0,
                pos as int));
            assert(data@.subrange(0, pos as int) =~= line_bytes(hc) + rows_bytes(view_rows(
                rows@)));
            assert(rm.cells.len() == nlang as int);
            assert forall|q: int| 0 <= q < rows@.len() implies (#[trigger] view_rows(
                rows@)[q]).cells.len() == nlang as int by {
                if q < rows@.len() - 1 {
                    assert(view_rows(rows@)[q] == orows[q]);
                } else {
                    assert(view_rows(rows@)[q] == rm);
                }
            }
            assert forall|q: int, q2: int| 0 <= q < rows@.len() && 0 <= q2 < rows@.len() && q
                != q2 implies (#[trigger] view_rows(rows@)[q]).key != (#[trigger] view_rows(
                rows@)[q2]).key by {
                if q2 == rows@.len() - 1 {
                    assert(view_rows(rows@)[q].key == orows[q].key);
                } else if q == rows@.len() - 1 {
                    assert(view_rows(rows@)[q2].key == orows[q2].key);
                } else {
                    assert(view_rows(rows@)[q].key == orows[q].key);
                    assert(view_rows(rows@)[q2].key == orows[q2].key);
                }
            }
        }
    }
    let t = DialogueTable { languages, rows };
    proof {
        assert forall|q: int| 0 <= q < header_cells(t@).len() implies header_cells(t@)[q]
            == hc[q] by {
            if q > 0 {
                assert(t@.languages[q - 1] == languages@[q - 1]@);
                assert(languages@[q - 1]@ == header@[q]@);
            } else {
                assert(header@[0]@ == kv@);
            }
        }
        assert(header_cells(t@) =~= hc);
        assert(data@.subrange(0, data@.len() as int) =~= data@);
        assert(csv_bytes(t@) == data@);
        assert(wf_table(t@));
    }
    Ok(t)
}

} // verus!
