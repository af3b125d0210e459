//! The flat text form of the catalog: one line per batch with the names of
//! its section, type and product, its expiry date and its two quantities,
//! separated by commas, under a fixed header line.

use vstd::prelude::*;
use vstd::string::StringExecFns;
use crate::decimal::{decimal, format_quantity, parse_quantity, quantity_or_zero};
use crate::fields::{lines, pieces, split, split_lines, split_on};
use crate::rows::{lemma_views_push, views, StoreError};
use crate::text::{chars_of, contains, contains_text, string_of, trim, trimmed};

verus! {

/// One line of the table: a batch with the names that lead to it.
#[derive(Debug, PartialEq, Eq)]
pub struct CsvRow {
    pub section: String,
    pub product_type: String,
    pub product: String,
    pub expiry_date: String,
    pub total_quantity: u32,
    pub shelf_quantity: u32,
}

pub struct CsvRowView {
    pub section: Seq<char>,
    pub product_type: Seq<char>,
    pub product: Seq<char>,
    pub expiry_date: Seq<char>,
    pub total_quantity: u32,
    pub shelf_quantity: u32,
}

impl View for CsvRow {
    type V = CsvRowView;

    open spec fn view(&self) -> CsvRowView {
        CsvRowView {
            section: self.section@,
            product_type: self.product_type@,
            product: self.product@,
            expiry_date: self.expiry_date@,
            total_quantity: self.total_quantity,
            shelf_quantity: self.shelf_quantity,
        }
    }
}

/// What a table holds: its rows, and how many of its lines were malformed
/// and left out.
#[derive(Debug, PartialEq, Eq)]
pub struct CsvTable {
    pub rows: Vec<CsvRow>,
    pub skipped: usize,
}

/// The header line of a table, with its line feed.
pub open spec fn header_line() -> Seq<char> {
    "Se\u{e7}\u{e3}o,Tipo,Produto,Validade,Total,Prateleira\n"@
}

/// The word for the section column, with its cedilla and tilde.
pub open spec fn section_word() -> Seq<char> {
    seq!['S', 'e', '\u{e7}', '\u{e3}', 'o']
}

/// The same word in plain letters.
pub open spec fn section_word_plain() -> Seq<char> {
    seq!['S', 'e', 'c', 'a', 'o']
}

/// A header line is accepted if it names the section column, in either
/// spelling.
pub open spec fn header_ok(line: Seq<char>) -> bool {
    contains_text(line, section_word()) || contains_text(line, section_word_plain())
}

/// What a data line says. A line of white space says nothing. A line with
/// fewer than six fields, or with an empty section, type, product or expiry
/// date, is malformed. Any other line is a row: its first six fields without
/// the white space around them, a quantity that is no number counting as
/// zero.
pub open spec fn read_line(line: Seq<char>) -> Result<Option<CsvRowView>, StoreError> {
    let t = trim(line);
    let f = split(t, ',');
    if t.len() == 0 {
        Ok(None)
    } else if f.len() < 6 {
        Err(StoreError::RowSkipped)
    } else if trim(f[0]).len() == 0 || trim(f[1]).len() == 0 || trim(f[2]).len() == 0 || trim(
        f[3],
    ).len() == 0 {
        Err(StoreError::RowSkipped)
    } else {
        Ok(
            Some(
                CsvRowView {
                    section: trim(f[0]),
                    product_type: trim(f[1]),
                    product: trim(f[2]),
                    expiry_date: trim(f[3]),
                    total_quantity: quantity_or_zero(trim(f[4])),
                    shelf_quantity: quantity_or_zero(trim(f[5])),
                },
            ),
        )
    }
}

/// The rows that the given data lines hold, in their order.
pub open spec fn data_rows(ls: Seq<Seq<char>>) -> Seq<CsvRowView>
    decreases ls.len(),
{
    if ls.len() == 0 {
        Seq::empty()
    } else {
        match read_line(ls.last()) {
            Ok(Some(row)) => data_rows(ls.drop_last()).push(row),
            _ => data_rows(ls.drop_last()),
        }
    }
}

/// How many of the given data lines are malformed.
pub open spec fn malformed_lines(ls: Seq<Seq<char>>) -> nat
    decreases ls.len(),
{
    if ls.len() == 0 {
        0
    } else if read_line(ls.last()) is Err {
        malformed_lines(ls.drop_last()) + 1
    } else {
        malformed_lines(ls.drop_last())
    }
}

/// What a text holds as a table: `InvalidFormat` if it has no first line or
/// the first line is no header; else the rows of the lines after the first
/// and the number of malformed lines among them.
pub open spec fn parse_csv(text: Seq<char>) -> Result<(Seq<CsvRowView>, nat), StoreError> {
    let ls = lines(text);
    if ls.len() == 0 || !header_ok(ls[0]) {
        Err(StoreError::InvalidFormat)
    } else {
        Ok((data_rows(ls.skip(1)), malformed_lines(ls.skip(1))))
    }
}

/// The line that a row is written as, with its line feed.
pub open spec fn render_row(row: CsvRowView) -> Seq<char> {
    row.section + seq![','] + row.product_type + seq![','] + row.product + seq![',']
        + row.expiry_date + seq![','] + decimal(row.total_quantity as nat) + seq![','] + decimal(
        row.shelf_quantity as nat,
    ) + seq!['\n']
}

/// The lines of the given rows, one behind the other.
pub open spec fn render_rows(rows: Seq<CsvRowView>) -> Seq<char>
    decreases rows.len(),
{
    if rows.len() == 0 {
        Seq::empty()
    } else {
        render_rows(rows.drop_last()) + render_row(rows.last())
    }
}

/// The text of a table: the header line, then the lines of its rows.
pub open spec fn render_csv(rows: Seq<CsvRowView>) -> Seq<char> {
    header_line() + render_rows(rows)
}

/// What `read_line` returned, with the row as its view.
pub open spec fn reading(r: Result<Option<CsvRow>, StoreError>) -> Result<
    Option<CsvRowView>,
    StoreError,
> {
    match r {
        Ok(Some(row)) => Ok(Some(row@)),
        Ok(None) => Ok(None),
        Err(e) => Err(e),
    }
}

/// Decides whether a line is a header.
pub fn is_header(line: &Vec<char>) -> (r: bool)
    ensures
        r == header_ok(line@),
{
    let accented: Vec<char> = vec!['S', 'e', '\u{e7}', '\u{e3}', 'o'];
    let plain: Vec<char> = vec!['S', 'e', 'c', 'a', 'o'];
    assert(accented@ =~= section_word());
    assert(plain@ =~= section_word_plain());
    contains(line, &accented) || contains(line, &plain)
}

/// Reads a data line: `Ok(None)` for a line of white space,
/// `Err(RowSkipped)` for a malformed line, else the row.
pub fn read_data_line(line: &Vec<char>) -> (r: Result<Option<CsvRow>, StoreError>)
    ensures
        reading(r) == read_line(line@),
{
    let t = trimmed(line);
    if t.len() == 0 {
        return Ok(None);
    }
    let f = split_on(&t, ',');
    if f.len() < 6 {
        return Err(StoreError::RowSkipped);
    }
    assert(forall|i: int| 0 <= i < f.len() ==> #[trigger] pieces(f@)[i] == f@[i]@);
    let section_text = trimmed(&f[0]);
    let kind = trimmed(&f[1]);
    let product_text = trimmed(&f[2]);
    let expiry = trimmed(&f[3]);
    let total = trimmed(&f[4]);
    let shelf = trimmed(&f[5]);
    assert(section_text@ == trim(pieces(f@)[0]));
    assert(kind@ == trim(pieces(f@)[1]));
    assert(product_text@ == trim(pieces(f@)[2]));
    assert(expiry@ == trim(pieces(f@)[3]));
    assert(total@ == trim(pieces(f@)[4]));
    assert(shelf@ == trim(pieces(f@)[5]));
    if section_text.len() == 0 || kind.len() == 0 || product_text.len() == 0 || expiry.len() == 0 {
        return Err(StoreError::RowSkipped);
    }
    let total_quantity: u32 = match parse_quantity(&total) {
        Some(n) => n,
        None => 0,
    };
    let shelf_quantity: u32 = match parse_quantity(&shelf) {
        Some(n) => n,
        None => 0,
    };
    Ok(
        Some(
            CsvRow {
                section: string_of(&section_text),
                product_type: string_of(&kind),
                product: string_of(&product_text),
                expiry_date: string_of(&expiry),
                total_quantity,
                shelf_quantity,
            },
        ),
    )
}

/// Reads a table from its text. Fails with `InvalidFormat` if the text has
/// no first line or its first line does not name the section column;
/// otherwise returns the rows of the other lines and the number of those
/// that were malformed.
pub fn parse_table(text: &str) -> (r: Result<CsvTable, StoreError>)
    ensures
        match r {
            Ok(table) => parse_csv(text@) == Ok::<(Seq<CsvRowView>, nat), StoreError>(
                (views(table.rows@), table.skipped as nat),
            ),
            Err(e) => e == StoreError::InvalidFormat && parse_csv(text@) is Err,
        },
{
    let chars = chars_of(text);
    let ls = split_lines(&chars);
    if ls.len() == 0 {
        return Err(StoreError::InvalidFormat);
    }
    assert(forall|i: int| 0 <= i < ls.len() ==> #[trigger] pieces(ls@)[i] == ls@[i]@);
    if !is_header(&ls[0]) {
        return Err(StoreError::InvalidFormat);
    }
    let ghost data = pieces(ls@).skip(1);
    let mut rows: Vec<CsvRow> = Vec::new();
    let mut skipped: usize = 0;
    let mut i: usize = 1;
    assert(data.take(0) =~= Seq::<Seq<char>>::empty());
    assert(views(rows@) =~= Seq::<CsvRowView>::empty());
    while i < ls.len()
        invariant
            1 <= i <= ls.len(),
            data == pieces(ls@).skip(1),
            views(rows@) == data_rows(data.take(i - 1)),
            skipped == malformed_lines(data.take(i - 1)),
            skipped <= i - 1,
        decreases ls.len() - i,
    {
        assert(data.take(i as int).drop_last() =~= data.take(i - 1));
        assert(data.take(i as int).last() == ls@[i as int]@);
        match read_data_line(&ls[i]) {
            Ok(Some(row)) => {
                proof {
                    lemma_views_push(rows@, row);
                }
                rows.push(row);
            },
            Ok(None) => {},
            Err(_) => {
                skipped += 1;
            },
        }
        i += 1;
    }
    assert(data.take(ls.len() - 1) =~= data);
    Ok(CsvTable { rows, skipped })
}

/// Writes one row as a line behind the text in `out`.
pub fn write_row(out: &mut String, row: &CsvRow)
    ensures
        final(out)@ == old(out)@ + render_row(row@),
{
    let total = string_of(&format_quantity(row.total_quantity));
    let shelf = string_of(&format_quantity(row.shelf_quantity));
    out.append(row.section.as_str());
    out.push(',');
    out.append(row.product_type.as_str());
    out.push(',');
    out.append(row.product.as_str());
    out.push(',');
    out.append(row.expiry_date.as_str());
    out.push(',');
    out.append(total.as_str());
    out.push(',');
    out.append(shelf.as_str());
    out.push('\n');
    assert(out@ =~= old(out)@ + render_row(row@));
}

/// Writes a table as text: the header line, then one line for each row.
pub fn write_table(rows: &Vec<CsvRow>) -> (text: String)
    ensures
        text@ == render_csv(views(rows@)),
{
    let mut out = String::from_str("Se\u{e7}\u{e3}o,Tipo,Produto,Validade,Total,Prateleira\n");
    let mut i: usize = 0;
    assert(views(rows@).take(0) =~= Seq::<CsvRowView>::empty());
    assert(out@ =~= header_line() + render_rows(views(rows@).take(0)));
    while i < rows.len()
        invariant
            i <= rows.len(),
            out@ == header_line() + render_rows(views(rows@).take(i as int)),
        decreases rows.len() - i,
    {
        assert(views(rows@).take(i + 1).drop_last() =~= views(rows@).take(i as int));
        assert(views(rows@).take(i + 1).last() == rows@[i as int]@);
        write_row(&mut out, &rows[i]);
        assert(out@ =~= header_line() + render_rows(views(rows@).take(i + 1)));
        i += 1;
    }
    assert(views(rows@).take(rows.len() as int) =~= views(rows@));
    out
}

} // verus!
