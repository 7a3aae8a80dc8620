//! The layout of the tables the command line prints.

use vstd::prelude::*;
use vstd::utf8::encode_utf8;
use crate::text::{chars_of, concat, string_of};

verus! {

/// The width of a cell: the length of its text in bytes, as `str::len`.
pub open spec fn cell_width(s: String) -> nat {
    (encode_utf8(s@).len() as usize) as nat
}

/// The width of column `i`: the widest of its header and of the cells that
/// the rows have in that column.
pub open spec fn column_width(header: String, rows: Seq<Vec<String>>, i: int) -> nat
    decreases rows.len(),
{
    if rows.len() == 0 {
        cell_width(header)
    } else {
        let before = column_width(header, rows.drop_last(), i);
        let last = rows.last()@;
        if 0 <= i < last.len() && cell_width(last[i]) > before { cell_width(last[i]) } else { before }
    }
}

/// The widths of the columns of a table with the given headers and rows;
/// cells beyond the last header are not counted.
pub fn column_widths(headers: &Vec<String>, rows: &Vec<Vec<String>>) -> (widths: Vec<usize>)
    ensures
        widths@.len() == headers@.len(),
        forall|i: int| 0 <= i < widths@.len() ==> #[trigger] widths@[i] == column_width(headers@[i], rows@, i),
{
    let mut widths: Vec<usize> = Vec::new();
    let mut i: usize = 0;
    while i < headers.len()
        invariant
            i <= headers@.len(),
            widths@.len() == i,
            forall|k: int| 0 <= k < i ==> #[trigger] widths@[k] == column_width(headers@[k], rows@.take(0), k),
        decreases headers.len() - i,
    {
        let h = headers[i].as_str();
        let w = h.len();
        assert(w == cell_width(headers@[i as int]));
        assert(rows@.take(0).len() == 0);
        widths.push(w);
        i = i + 1;
    }
    let mut r: usize = 0;
    while r < rows.len()
        invariant
            r <= rows@.len(),
            widths@.len() == headers@.len(),
            forall|k: int| 0 <= k < widths@.len() ==> #[trigger] widths@[k] == column_width(headers@[k], rows@.take(r as int), k),
        decreases rows.len() - r,
    {
        assert(rows@.take(r + 1).drop_last() =~= rows@.take(r as int));
        assert(rows@.take(r + 1).last() == rows@[r as int]);
        let row = &rows[r];
        assert forall|k: int| 0 <= k < widths@.len() && k >= row@.len()
            implies column_width(headers@[k], rows@.take(r + 1), k) == column_width(headers@[k], rows@.take(r as int), k) by {
            assert(rows@.take(r + 1).drop_last() =~= rows@.take(r as int));
        }
        let mut c: usize = 0;
        while c < row.len()
            invariant
                c <= row@.len(),
                r < rows@.len(),
                *row == rows@[r as int],
                widths@.len() == headers@.len(),
                forall|k: int| 0 <= k < widths@.len() && (k < c || k >= row@.len())
                    ==> #[trigger] widths@[k] == column_width(headers@[k], rows@.take(r + 1), k),
                forall|k: int| 0 <= k < widths@.len() && c <= k < row@.len()
                    ==> #[trigger] widths@[k] == column_width(headers@[k], rows@.take(r as int), k),
            decreases row.len() - c,
        {
            let ghost rows_now = rows@.take(r + 1);
            assert(rows_now.drop_last() =~= rows@.take(r as int));
            assert(rows_now.last() == *row);
            if c < widths.len() {
                let cell = row[c].as_str();
                let w = cell.len();
                assert(w == cell_width(row@[c as int]));
                if w > widths[c] {
                    widths.set(c, w);
                }
                assert(widths@[c as int] == column_width(headers@[c as int], rows_now, c as int));
            }
            c = c + 1;
        }
        r = r + 1;
    }
    assert(rows@.take(rows@.len() as int) =~= rows@);
    widths
}

/// The widths of the columns of a table with the given headers and rows.
pub open spec fn table_widths(headers: Seq<String>, rows: Seq<Vec<String>>) -> Seq<usize> {
    Seq::new(headers.len(), |i: int| column_width(headers[i], rows, i) as usize)
}

/// `s` filled on the right with `fill` up to `width` characters, as
/// `format!("{:<width$}", s)` pads (longer texts are kept whole).
pub open spec fn padded(s: Seq<char>, width: nat, fill: char) -> Seq<char> {
    if s.len() >= width { s } else { s + Seq::new((width - s.len()) as nat, |i: int| fill) }
}

/// A table line: two spaces, then each cell that has a column, padded to the
/// column's width and followed by two spaces.
pub open spec fn cells_line(cells: Seq<Seq<char>>, widths: Seq<usize>, fill: char) -> Seq<char>
    decreases cells.len(),
{
    if cells.len() == 0 {
        "  "@
    } else {
        cells_line(cells.drop_last(), widths, fill) + if cells.len() - 1 < widths.len() {
            padded(cells.last(), widths[cells.len() - 1] as nat, fill) + "  "@
        } else {
            Seq::empty()
        }
    }
}

/// The texts of a list of strings.
pub open spec fn texts(v: Seq<String>) -> Seq<Seq<char>> {
    v.map_values(|s: String| s@)
}

/// The lines a table prints: the header line, a line of dashes as wide as
/// each column, and a line per row, laid out by the column widths; a single
/// notice when there are no rows.
pub open spec fn table_text(headers: Seq<String>, rows: Seq<Vec<String>>) -> Seq<Seq<char>> {
    let widths = table_widths(headers, rows);
    if rows.len() == 0 {
        seq!["No data to display."@]
    } else {
        seq![
            cells_line(texts(headers), widths, ' '),
            cells_line(Seq::new(headers.len(), |i: int| Seq::<char>::empty()), widths, '-'),
        ] + Seq::new(rows.len(), |r: int| cells_line(texts(rows[r]@), widths, ' '))
    }
}

/// Appends `fill` to `line` until a cell of `len` characters reaches
/// `width` characters.
fn pad_to(line: &mut Vec<char>, len: usize, width: usize, fill: char)
    ensures
        final(line)@ == old(line)@ + if len >= width {
            Seq::<char>::empty()
        } else {
            Seq::new((width - len) as nat, |i: int| fill)
        },
{
    let ghost start = line@;
    let mut n = len;
    while n < width
        invariant
            len <= n,
            len < width ==> n <= width,
            len >= width ==> n == len,
            line@ == start + Seq::new((n - len) as nat, |i: int| fill),
        decreases width - n,
    {
        line.push(fill);
        n = n + 1;
        assert(line@ =~= start + Seq::new((n - len) as nat, |i: int| fill));
    }
    assert(line@ =~= start + if len >= width {
        Seq::<char>::empty()
    } else {
        Seq::new((width - len) as nat, |i: int| fill)
    });
}

/// A table line of `cells` laid out by `widths`.
fn line_of(cells: &Vec<String>, widths: &Vec<usize>, fill: char) -> (line: String)
    ensures
        line@ == cells_line(texts(cells@), widths@, fill),
{
    let ghost all = texts(cells@);
    proof { reveal_strlit("  "); }
    let mut line: Vec<char> = Vec::new();
    line.push(' ');
    line.push(' ');
    assert(all.take(0).len() == 0);
    assert(line@ =~= cells_line(all.take(0), widths@, fill));
    let mut i: usize = 0;
    while i < cells.len()
        invariant
            i <= cells@.len(),
            all == texts(cells@),
            line@ == cells_line(all.take(i as int), widths@, fill),
        decreases cells.len() - i,
    {
        assert(all.take(i + 1).drop_last() =~= all.take(i as int));
        assert(all.take(i + 1).last() == cells@[i as int]@);
        if i < widths.len() {
            let text = chars_of(cells[i].as_str());
            let ghost before = line@;
            line = concat(&line, &text);
            pad_to(&mut line, text.len(), widths[i], fill);
            let ghost filled = line@;
            assert(filled =~= before + padded(text@, widths@[i as int] as nat, fill));
            line.push(' ');
            line.push(' ');
            proof { reveal_strlit("  "); }
            assert("  "@ =~= seq![' ', ' ']);
            assert(line@ =~= filled + "  "@);
            assert(line@ =~= before + (padded(text@, widths@[i as int] as nat, fill) + "  "@));
        } else {
            assert(line@ =~= cells_line(all.take(i as int), widths@, fill) + Seq::<char>::empty());
        }
        i = i + 1;
    }
    assert(all.take(cells@.len() as int) =~= all);
    string_of(line.as_slice())
}

/// The lines a table prints, laid out by `column_widths`.
pub fn table_lines(headers: &Vec<String>, rows: &Vec<Vec<String>>) -> (lines: Vec<String>)
    ensures
        texts(lines@) == table_text(headers@, rows@),
{
    if rows.len() == 0 {
        let mut lines: Vec<String> = Vec::new();
        lines.push("No data to display.".to_owned());
        assert(texts(lines@) =~= table_text(headers@, rows@));
        return lines;
    }
    let widths = column_widths(headers, rows);
    assert(widths@ =~= table_widths(headers@, rows@));
    let ghost w = widths@;
    let mut lines: Vec<String> = Vec::new();
    lines.push(line_of(headers, &widths, ' '));
    let mut blanks: Vec<String> = Vec::new();
    let mut k: usize = 0;
    while k < headers.len()
        invariant
            k <= headers@.len(),
            texts(blanks@) == Seq::new(k as nat, |i: int| Seq::<char>::empty()),
        decreases headers.len() - k,
    {
        let ghost before = texts(blanks@);
        let blank = String::new();
        blanks.push(blank);
        assert(texts(blanks@) =~= before.push(blank@));
        assert(texts(blanks@) =~= Seq::new((k + 1) as nat, |i: int| Seq::<char>::empty()));
        k = k + 1;
    }
    lines.push(line_of(&blanks, &widths, '-'));
    let mut r: usize = 0;
    while r < rows.len()
        invariant
            r <= rows@.len(),
            widths@ == w,
            w == table_widths(headers@, rows@),
            texts(lines@) == seq![
                cells_line(texts(headers@), w, ' '),
                cells_line(Seq::new(headers@.len(), |i: int| Seq::<char>::empty()), w, '-'),
            ] + Seq::new(r as nat, |j: int| cells_line(texts(rows@[j]@), w, ' ')),
        decreases rows.len() - r,
    {
        let line = line_of(&rows[r], &widths, ' ');
        let ghost prev = texts(lines@);
        lines.push(line);
        assert(texts(lines@) =~= prev.push(line@));
        assert(texts(lines@) =~= seq![
            cells_line(texts(headers@), w, ' '),
            cells_line(Seq::new(headers@.len(), |i: int| Seq::<char>::empty()), w, '-'),
        ] + Seq::new((r + 1) as nat, |j: int| cells_line(texts(rows@[j]@), w, ' ')));
        r = r + 1;
    }
    lines
}

} // verus!
