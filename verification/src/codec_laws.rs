//! Why a table that was written out is read back as it was: the rows of
//! the text of a table are the rows of the table, provided no field would
//! be taken for something else when it is read.

use vstd::prelude::*;
use crate::csv::{
    data_rows, header_line, header_ok, malformed_lines, parse_csv, read_line, render_csv,
    render_row, render_rows, section_word, CsvRowView,
};
use crate::decimal::{decimal, is_digit, lemma_decimal_reads_back, lemma_quantity_round_trip};
use crate::fields::{lemma_index_of_is, lines, split};
use crate::rows::StoreError;
use crate::text::{is_space, occurs_at, trim};

verus! {

/// A field that is read back as it was written: it is not empty, has no
/// white space at either end, and holds neither a comma nor a line feed.
pub open spec fn plain(s: Seq<char>) -> bool {
    &&& s.len() > 0
    &&& !is_space(s[0])
    &&& !is_space(s.last())
    &&& forall|i: int| 0 <= i < s.len() ==> #[trigger] s[i] != ',' && s[i] != '\n'
}

/// A row whose four texts are plain.
pub open spec fn plain_row(row: CsvRowView) -> bool {
    plain(row.section) && plain(row.product_type) && plain(row.product) && plain(row.expiry_date)
}

/// The line of a row without its line feed.
pub open spec fn line_of(row: CsvRowView) -> Seq<char> {
    row.section.push(',') + (row.product_type.push(',') + (row.product.push(',') + (
    row.expiry_date.push(',') + (decimal(row.total_quantity as nat).push(',') + decimal(
        row.shelf_quantity as nat,
    )))))
}

/// The lines of the given rows.
pub open spec fn lines_of(rows: Seq<CsvRowView>) -> Seq<Seq<char>> {
    Seq::new(rows.len(), |i: int| line_of(rows[i]))
}

/// `c` does not occur in `s`.
pub open spec fn free_of(s: Seq<char>, c: char) -> bool {
    forall|i: int| 0 <= i < s.len() ==> #[trigger] s[i] != c
}

/// A text followed by a separator is cut off as the first piece.
pub proof fn lemma_split_first(a: Seq<char>, sep: char, rest: Seq<char>)
    requires
        free_of(a, sep),
    ensures
        split(a.push(sep) + rest, sep) == seq![a] + split(rest, sep),
{
    let s = a.push(sep) + rest;
    assert forall|i: int| 0 <= i < a.len() implies #[trigger] s[i] != sep by {
        assert(s[i] == a[i]);
    }
    assert(s[a.len() as int] == sep);
    lemma_index_of_is(s, sep, a.len() as int);
    assert(s.take(a.len() as int) =~= a);
    assert(s.skip(a.len() as int + 1) =~= rest);
}

/// A text without a separator is its own single piece.
pub proof fn lemma_split_whole(a: Seq<char>, sep: char)
    requires
        free_of(a, sep),
    ensures
        split(a, sep) == seq![a],
{
    lemma_index_of_is(a, sep, a.len() as int);
}

/// A text followed by a line feed is cut off as the first line.
pub proof fn lemma_lines_first(a: Seq<char>, rest: Seq<char>)
    requires
        free_of(a, '\n'),
    ensures
        lines(a.push('\n') + rest) == seq![a] + lines(rest),
{
    let s = a.push('\n') + rest;
    assert forall|i: int| 0 <= i < a.len() implies #[trigger] s[i] != '\n' by {
        assert(s[i] == a[i]);
    }
    assert(s[a.len() as int] == '\n');
    lemma_index_of_is(s, '\n', a.len() as int);
    assert(s.take(a.len() as int) =~= a);
    assert(s.skip(a.len() as int + 1) =~= rest);
}

/// Trimming leaves a text that has no white space at its ends as it is.
pub proof fn lemma_trim_nothing(s: Seq<char>)
    requires
        s.len() > 0,
        !is_space(s[0]),
        !is_space(s.last()),
    ensures
        trim(s) == s,
{
}

/// The digits of a number are plain, and free of every character that is
/// no digit.
pub proof fn lemma_decimal_is_plain(n: nat)
    ensures
        plain(decimal(n)),
{
    lemma_decimal_reads_back(n);
    let s = decimal(n);
    assert(is_digit(s[0]));
    assert(is_digit(s[s.len() - 1]));
    assert forall|i: int| 0 <= i < s.len() implies #[trigger] s[i] != ',' && s[i] != '\n' by {
        assert(is_digit(s[i]));
    }
}

/// The line of a plain row is read back as the row.
pub proof fn lemma_line_reads_back(row: CsvRowView)
    requires
        plain_row(row),
    ensures
        read_line(line_of(row)) == Ok::<Option<CsvRowView>, StoreError>(Some(row)),
        free_of(line_of(row), '\n'),
{
    let total = decimal(row.total_quantity as nat);
    let shelf = decimal(row.shelf_quantity as nat);
    lemma_decimal_is_plain(row.total_quantity as nat);
    lemma_decimal_is_plain(row.shelf_quantity as nat);
    lemma_quantity_round_trip(row.total_quantity);
    lemma_quantity_round_trip(row.shelf_quantity);
    let r5 = shelf;
    let r4 = total.push(',') + r5;
    let r3 = row.expiry_date.push(',') + r4;
    let r2 = row.product.push(',') + r3;
    let r1 = row.product_type.push(',') + r2;
    let line = row.section.push(',') + r1;
    assert(line == line_of(row));
    lemma_split_whole(r5, ',');
    lemma_split_first(total, ',', r5);
    lemma_split_first(row.expiry_date, ',', r4);
    lemma_split_first(row.product, ',', r3);
    lemma_split_first(row.product_type, ',', r2);
    lemma_split_first(row.section, ',', r1);
    let f = split(line, ',');
    assert(f =~= seq![row.section, row.product_type, row.product, row.expiry_date, total, shelf]);
    assert(line[0] == row.section[0]);
    assert(line.last() == shelf.last());
    lemma_trim_nothing(line);
    lemma_trim_nothing(row.section);
    lemma_trim_nothing(row.product_type);
    lemma_trim_nothing(row.product);
    lemma_trim_nothing(row.expiry_date);
    lemma_trim_nothing(total);
    lemma_trim_nothing(shelf);
    assert forall|i: int| 0 <= i < line.len() implies #[trigger] line[i] != '\n' by {
        lemma_line_chars(row, i);
    }
}

/// Every character of the line of a row is a comma or a character of one
/// of its fields.
proof fn lemma_line_chars(row: CsvRowView, i: int)
    requires
        plain_row(row),
        0 <= i < line_of(row).len(),
    ensures
        line_of(row)[i] != '\n',
{
    let total = decimal(row.total_quantity as nat);
    let shelf = decimal(row.shelf_quantity as nat);
    lemma_decimal_is_plain(row.total_quantity as nat);
    lemma_decimal_is_plain(row.shelf_quantity as nat);
    let r5 = shelf;
    let r4 = total.push(',') + r5;
    let r3 = row.expiry_date.push(',') + r4;
    let r2 = row.product.push(',') + r3;
    let r1 = row.product_type.push(',') + r2;
    let line = row.section.push(',') + r1;
    assert(free_of(r5, '\n'));
    assert(free_of(r4, '\n')) by {
        assert forall|k: int| 0 <= k < r4.len() implies #[trigger] r4[k] != '\n' by {
            if k < total.len() {
                assert(r4[k] == total[k]);
            } else if k > total.len() {
                assert(r4[k] == r5[k - total.len() - 1]);
            }
        }
    }
    assert(free_of(r3, '\n')) by {
        assert forall|k: int| 0 <= k < r3.len() implies #[trigger] r3[k] != '\n' by {
            if k < row.expiry_date.len() {
                assert(r3[k] == row.expiry_date[k]);
            } else if k > row.expiry_date.len() {
                assert(r3[k] == r4[k - row.expiry_date.len() - 1]);
            }
        }
    }
    assert(free_of(r2, '\n')) by {
        assert forall|k: int| 0 <= k < r2.len() implies #[trigger] r2[k] != '\n' by {
            if k < row.product.len() {
                assert(r2[k] == row.product[k]);
            } else if k > row.product.len() {
                assert(r2[k] == r3[k - row.product.len() - 1]);
            }
        }
    }
    assert(free_of(r1, '\n')) by {
        assert forall|k: int| 0 <= k < r1.len() implies #[trigger] r1[k] != '\n' by {
            if k < row.product_type.len() {
                assert(r1[k] == row.product_type[k]);
            } else if k > row.product_type.len() {
                assert(r1[k] == r2[k - row.product_type.len() - 1]);
            }
        }
    }
    if i < row.section.len() {
        assert(line[i] == row.section[i]);
    } else if i > row.section.len() {
        assert(line[i] == r1[i - row.section.len() - 1]);
    }
}

/// The text of some rows begins with the line of the first.
proof fn lemma_render_rows_first(rows: Seq<CsvRowView>)
    requires
        rows.len() > 0,
    ensures
        render_rows(rows) == render_row(rows[0]) + render_rows(rows.skip(1)),
    decreases rows.len(),
{
    if rows.len() == 1 {
        assert(rows.drop_last() =~= Seq::<CsvRowView>::empty());
        assert(rows.skip(1) =~= Seq::<CsvRowView>::empty());
        assert(render_rows(rows.drop_last()) =~= Seq::<char>::empty());
        assert(render_rows(rows) =~= render_row(rows[0]) + render_rows(rows.skip(1)));
    } else {
        lemma_render_rows_first(rows.drop_last());
        assert(rows.drop_last().skip(1) =~= rows.skip(1).drop_last());
        assert(rows.drop_last()[0] == rows[0]);
        assert(rows.skip(1).last() == rows.last());
        assert(render_rows(rows) =~= render_row(rows[0]) + render_rows(rows.skip(1)));
    }
}

/// The lines of the text of plain rows are the lines of the rows.
proof fn lemma_lines_of_rows(rows: Seq<CsvRowView>)
    requires
        forall|i: int| 0 <= i < rows.len() ==> plain_row(#[trigger] rows[i]),
    ensures
        lines(render_rows(rows)) == lines_of(rows),
    decreases rows.len(),
{
    if rows.len() == 0 {
        assert(lines(render_rows(rows)) =~= lines_of(rows));
    } else {
        let rest = rows.skip(1);
        assert forall|i: int| 0 <= i < rest.len() implies plain_row(#[trigger] rest[i]) by {
            assert(rest[i] == rows[i + 1]);
        }
        lemma_lines_of_rows(rest);
        lemma_render_rows_first(rows);
        lemma_line_reads_back(rows[0]);
        assert(render_row(rows[0]) =~= line_of(rows[0]).push('\n'));
        lemma_lines_first(line_of(rows[0]), render_rows(rest));
        assert(seq![line_of(rows[0])] + lines_of(rest) =~= lines_of(rows));
    }
}

/// The lines of plain rows are read back as the rows, none of them
/// malformed.
proof fn lemma_rows_read_back(rows: Seq<CsvRowView>)
    requires
        forall|i: int| 0 <= i < rows.len() ==> plain_row(#[trigger] rows[i]),
    ensures
        data_rows(lines_of(rows)) == rows,
        malformed_lines(lines_of(rows)) == 0,
    decreases rows.len(),
{
    if rows.len() == 0 {
        assert(data_rows(lines_of(rows)) =~= rows);
    } else {
        let rest = rows.drop_last();
        assert forall|i: int| 0 <= i < rest.len() implies plain_row(#[trigger] rest[i]) by {
            assert(rest[i] == rows[i]);
        }
        lemma_rows_read_back(rest);
        assert(lines_of(rows).drop_last() =~= lines_of(rest));
        assert(lines_of(rows).last() == line_of(rows.last()));
        lemma_line_reads_back(rows[rows.len() - 1]);
        assert(rest.push(rows.last()) =~= rows);
    }
}

/// The header line names the section column and ends in its only line
/// feed.
proof fn lemma_header(body: Seq<char>)
    ensures
        lines(header_line() + body).len() > 0,
        header_ok(lines(header_line() + body)[0]),
        lines(header_line() + body).skip(1) == lines(body),
{
    reveal_strlit("Se\u{e7}\u{e3}o,Tipo,Produto,Validade,Total,Prateleira\n");
    let h = header_line();
    assert(h.len() == 45);
    let words = h.take(44);
    assert(h[44] == '\n');
    assert(free_of(words, '\n')) by {
        assert forall|i: int| 0 <= i < words.len() implies #[trigger] words[i] != '\n' by {
            assert(words[i] == h[i]);
        }
    }
    assert(h + body =~= words.push('\n') + body);
    lemma_lines_first(words, body);
    assert((seq![words] + lines(body)).skip(1) =~= lines(body));
    assert(words.subrange(0, 5) =~= section_word());
    assert(occurs_at(words, section_word(), 0));
}

/// A table of plain rows that is written out and read back is the table it
/// was, and none of its lines is malformed.
pub proof fn law_table_reads_back(rows: Seq<CsvRowView>)
    requires
        forall|i: int| 0 <= i < rows.len() ==> plain_row(#[trigger] rows[i]),
    ensures
        parse_csv(render_csv(rows)) == Ok::<(Seq<CsvRowView>, nat), StoreError>((rows, 0nat)),
{
    lemma_header(render_rows(rows));
    lemma_lines_of_rows(rows);
    lemma_rows_read_back(rows);
}

} // verus!
