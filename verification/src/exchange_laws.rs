//! Why an exported catalog that is imported again holds what it held: the
//! rows of a catalog, taken as a set, survive the way through the text of a
//! table and back.

use vstd::prelude::*;
use crate::catalog::{
    lemma_create_product_wf, lemma_create_section_wf, lemma_create_type_wf,
    lemma_insert_batch_wf, CatalogView,
};
use crate::codec_laws::{law_table_reads_back, plain_row};
use crate::csv::CsvRowView;
use crate::exchange::{row_of, rows_of_batches};
use crate::order::{
    distinct_keys, in_order, lemma_sorted, lemma_sorted_contains, lemma_sorted_distinct_keys,
    lemma_text_le_refl,
};
use crate::rows::{BatchView, Keyed, ProductView, SectionView, StoreError, TypeView};
use crate::table::{
    distinct_ids, has_id, has_key, has_key_under, index_of_key, index_of_key_under,
    lemma_listed_contains, lemma_listed_in_order, lemma_next_id_is_new, next_id,
};
use crate::text::{text_le, uppercase_of};

verus! {

/// The row as the catalog keeps it: with the product name in upper case.
pub open spec fn stored_form(row: CsvRowView) -> CsvRowView {
    CsvRowView { product: uppercase_of(row.product), ..row }
}

/// The table counts its identifiers from 1 without a gap, so that the next
/// one is the number of its records plus one.
pub open spec fn counted<V: Keyed>(s: Seq<V>) -> bool {
    next_id(s) == s.len() + 1
}

impl CatalogView {
    /// The batch at `b` belongs to the product at `p`, that to the type at
    /// `t`, and that to the section at `s`.
    pub open spec fn linked(self, s: int, t: int, p: int, b: int) -> bool {
        &&& 0 <= s < self.sections.len()
        &&& 0 <= t < self.types.len()
        &&& 0 <= p < self.products.len()
        &&& 0 <= b < self.batches.len()
        &&& self.types[t].section_id == self.sections[s].id
        &&& self.products[p].type_id == self.types[t].id
        &&& self.batches[b].product_id == self.products[p].id
    }

    /// `row` is the row of a batch of the catalog under its product, type
    /// and section.
    pub open spec fn joined(self, row: CsvRowView) -> bool {
        exists|s: int, t: int, p: int, b: int| #[trigger]
            self.linked(s, t, p, b) && row == row_of(
                self.sections[s],
                self.types[t],
                self.products[p],
                self.batches[b],
            )
    }

    /// The rows of the catalog as a set: what it holds, whatever the
    /// identifiers and the order.
    pub open spec fn tuples(self) -> Set<CsvRowView> {
        Set::new(|row: CsvRowView| self.joined(row))
    }

    /// Every table counts its identifiers from 1 without a gap and has at
    /// most `n` records.
    pub open spec fn fits(self, n: int) -> bool {
        &&& counted(self.sections) && self.sections.len() <= n
        &&& counted(self.types) && self.types.len() <= n
        &&& counted(self.products) && self.products.len() <= n
        &&& counted(self.batches) && self.batches.len() <= n
    }
}

/// A table that counts its identifiers without a gap still does so with one
/// more record under the next identifier.
proof fn lemma_counted_push<V: Keyed>(s: Seq<V>, x: V)
    requires
        counted(s),
        x.ident() == next_id(s),
    ensures
        counted(s.push(x)),
{
    assert(s.push(x).drop_last() =~= s);
}

/// A new section leaves the catalog well formed and its rows as they were.
proof fn lemma_create_section(c: CatalogView, name: Seq<char>)
    requires
        c.wf(),
        c.create_section(name) is Ok,
    ensures
        c.create_section(name)->Ok_0.wf(),
        forall|row: CsvRowView| c.create_section(name)->Ok_0.joined(row) <==> c.joined(row),
{
    let d = c.create_section(name)->Ok_0;
    lemma_create_section_wf(c, name);
    lemma_next_id_is_new(c.sections);
    assert forall|row: CsvRowView| d.joined(row) <==> c.joined(row) by {
        if d.joined(row) {
            let (s, t, p, b) = choose|s: int, t: int, p: int, b: int| #[trigger]
                d.linked(s, t, p, b) && row == row_of(
                    d.sections[s],
                    d.types[t],
                    d.products[p],
                    d.batches[b],
                );
            assert(has_id(c.sections, c.types[t].section_id));
            assert(c.linked(s, t, p, b));
        }
        if c.joined(row) {
            let (s, t, p, b) = choose|s: int, t: int, p: int, b: int| #[trigger]
                c.linked(s, t, p, b) && row == row_of(
                    c.sections[s],
                    c.types[t],
                    c.products[p],
                    c.batches[b],
                );
            assert(d.linked(s, t, p, b));
        }
    }
}

/// A new type leaves the catalog well formed and its rows as they were.
proof fn lemma_create_type(c: CatalogView, name: Seq<char>, section_id: i64)
    requires
        c.wf(),
        c.create_type(name, section_id) is Ok,
    ensures
        c.create_type(name, section_id)->Ok_0.wf(),
        forall|row: CsvRowView|
            c.create_type(name, section_id)->Ok_0.joined(row) <==> c.joined(row),
{
    let d = c.create_type(name, section_id)->Ok_0;
    lemma_create_type_wf(c, name, section_id);
    lemma_next_id_is_new(c.types);
    assert forall|row: CsvRowView| d.joined(row) <==> c.joined(row) by {
        if d.joined(row) {
            let (s, t, p, b) = choose|s: int, t: int, p: int, b: int| #[trigger]
                d.linked(s, t, p, b) && row == row_of(
                    d.sections[s],
                    d.types[t],
                    d.products[p],
                    d.batches[b],
                );
            assert(has_id(c.types, c.products[p].type_id));
            assert(c.linked(s, t, p, b));
        }
        if c.joined(row) {
            let (s, t, p, b) = choose|s: int, t: int, p: int, b: int| #[trigger]
                c.linked(s, t, p, b) && row == row_of(
                    c.sections[s],
                    c.types[t],
                    c.products[p],
                    c.batches[b],
                );
            assert(d.linked(s, t, p, b));
        }
    }
}

/// A new product leaves the catalog well formed and its rows as they were.
proof fn lemma_create_product(c: CatalogView, name: Seq<char>, type_id: i64)
    requires
        c.wf(),
        c.create_product(name, type_id) is Ok,
    ensures
        c.create_product(name, type_id)->Ok_0.wf(),
        forall|row: CsvRowView|
            c.create_product(name, type_id)->Ok_0.joined(row) <==> c.joined(row),
{
    let d = c.create_product(name, type_id)->Ok_0;
    lemma_create_product_wf(c, name, type_id);
    lemma_next_id_is_new(c.products);
    assert forall|row: CsvRowView| d.joined(row) <==> c.joined(row) by {
        if d.joined(row) {
            let (s, t, p, b) = choose|s: int, t: int, p: int, b: int| #[trigger]
                d.linked(s, t, p, b) && row == row_of(
                    d.sections[s],
                    d.types[t],
                    d.products[p],
                    d.batches[b],
                );
            assert(has_id(c.products, c.batches[b].product_id));
            assert(c.linked(s, t, p, b));
        }
        if c.joined(row) {
            let (s, t, p, b) = choose|s: int, t: int, p: int, b: int| #[trigger]
                c.linked(s, t, p, b) && row == row_of(
                    c.sections[s],
                    c.types[t],
                    c.products[p],
                    c.batches[b],
                );
            assert(d.linked(s, t, p, b));
        }
    }
}

/// A new batch leaves the catalog well formed and adds its row to the rows
/// of the catalog.
proof fn lemma_insert_batch(
    c: CatalogView,
    s: int,
    t: int,
    p: int,
    expiry_date: Seq<char>,
    total_quantity: u32,
    shelf_quantity: u32,
)
    requires
        c.wf(),
        0 <= s < c.sections.len(),
        0 <= t < c.types.len(),
        0 <= p < c.products.len(),
        c.types[t].section_id == c.sections[s].id,
        c.products[p].type_id == c.types[t].id,
        c.insert_batch(c.products[p].id, expiry_date, total_quantity, shelf_quantity) is Ok,
    ensures
        ({
            let d = c.insert_batch(
                c.products[p].id,
                expiry_date,
                total_quantity,
                shelf_quantity,
            )->Ok_0;
            let added = CsvRowView {
                section: c.sections[s].name,
                product_type: c.types[t].name,
                product: c.products[p].name,
                expiry_date,
                total_quantity,
                shelf_quantity,
            };
            &&& d.wf()
            &&& forall|row: CsvRowView| d.joined(row) <==> c.joined(row) || row == added
        }),
{
    let d = c.insert_batch(c.products[p].id, expiry_date, total_quantity, shelf_quantity)->Ok_0;
    let x = BatchView {
        id: next_id(c.batches) as i64,
        product_id: c.products[p].id,
        expiry_date,
        total_quantity,
        shelf_quantity,
    };
    let added = row_of(c.sections[s], c.types[t], c.products[p], x);
    lemma_insert_batch_wf(c, c.products[p].id, expiry_date, total_quantity, shelf_quantity);
    let n = c.batches.len() as int;
    assert forall|row: CsvRowView| d.joined(row) <==> c.joined(row) || row == added by {
        if d.joined(row) {
            let (sx, tx, px, bx) = choose|s: int, t: int, p: int, b: int| #[trigger]
                d.linked(s, t, p, b) && row == row_of(
                    d.sections[s],
                    d.types[t],
                    d.products[p],
                    d.batches[b],
                );
            if bx < n {
                assert(c.linked(sx, tx, px, bx));
            } else {
                lemma_same_id_same_place(c.products, px, p);
                lemma_same_id_same_place(c.types, tx, t);
                lemma_same_id_same_place(c.sections, sx, s);
            }
        }
        if c.joined(row) {
            let (sx, tx, px, bx) = choose|s: int, t: int, p: int, b: int| #[trigger]
                c.linked(s, t, p, b) && row == row_of(
                    c.sections[s],
                    c.types[t],
                    c.products[p],
                    c.batches[b],
                );
            assert(d.linked(sx, tx, px, bx));
        }
        if row == added {
            assert(d.linked(s, t, p, n));
        }
    }
}

/// In a table of distinct identifiers, two places with the same identifier
/// are one place.
proof fn lemma_same_id_same_place<V: Keyed>(s: Seq<V>, i: int, j: int)
    requires
        distinct_ids(s),
        0 <= i < s.len(),
        0 <= j < s.len(),
        s[i].ident() == s[j].ident(),
    ensures
        i == j,
{
    if i < j {
        assert(s[i].ident() != s[j].ident());
    } else if j < i {
        assert(s[j].ident() != s[i].ident());
    }
}

/// Bringing a row into a well-formed catalog that has identifiers left adds
/// the row, in the form in which the catalog keeps it, to the rows of the
/// catalog.
proof fn lemma_load_row(c: CatalogView, row: CsvRowView, n: int)
    requires
        c.wf(),
        c.fits(n),
        n < i64::MAX,
    ensures
        c.load_row(row).1,
        c.load_row(row).0.wf(),
        c.load_row(row).0.fits(n + 1),
        forall|x: CsvRowView|
            c.load_row(row).0.joined(x) <==> c.joined(x) || x == stored_form(row),
{
    // the section
    let (c1, section) = c.ensure_section(row.section);
    if !has_key(c.sections, row.section) {
        lemma_create_section(c, row.section);
        lemma_counted_push(
            c.sections,
            SectionView { id: next_id(c.sections) as i64, name: row.section },
        );
    }
    let s = if has_key(c.sections, row.section) {
        index_of_key(c.sections, row.section)
    } else {
        c.sections.len() as int
    };
    assert(0 <= s < c1.sections.len() && c1.sections[s].name == row.section && c1.sections[s].id
        == section->0);
    assert(has_id(c1.sections, section->0));
    // the type
    let (c2, kind) = c1.ensure_type(row.product_type, section->0);
    if !has_key_under(c1.types, row.product_type, section->0) {
        lemma_create_type(c1, row.product_type, section->0);
        lemma_counted_push(
            c1.types,
            TypeView { id: next_id(c1.types) as i64, name: row.product_type, section_id: section->0 },
        );
    }
    let t = if has_key_under(c1.types, row.product_type, section->0) {
        index_of_key_under(c1.types, row.product_type, section->0)
    } else {
        c1.types.len() as int
    };
    assert(0 <= t < c2.types.len() && c2.types[t].name == row.product_type && c2.types[t].id
        == kind->0 && c2.types[t].section_id == section->0);
    assert(has_id(c2.types, kind->0));
    // the product
    let upper = uppercase_of(row.product);
    let (c3, product) = c2.ensure_product(row.product, kind->0);
    if !has_key_under(c2.products, upper, kind->0) {
        lemma_create_product(c2, row.product, kind->0);
        lemma_counted_push(
            c2.products,
            ProductView { id: next_id(c2.products) as i64, name: upper, type_id: kind->0 },
        );
    }
    let p = if has_key_under(c2.products, upper, kind->0) {
        index_of_key_under(c2.products, upper, kind->0)
    } else {
        c2.products.len() as int
    };
    assert(0 <= p < c3.products.len() && c3.products[p].name == upper && c3.products[p].id
        == product->0 && c3.products[p].type_id == kind->0);
    assert(has_id(c3.products, product->0));
    // the batch
    lemma_insert_batch(c3, s, t, p, row.expiry_date, row.total_quantity, row.shelf_quantity);
    lemma_counted_push(
        c3.batches,
        BatchView {
            id: next_id(c3.batches) as i64,
            product_id: product->0,
            expiry_date: row.expiry_date,
            total_quantity: row.total_quantity,
            shelf_quantity: row.shelf_quantity,
        },
    );
}

/// Bringing rows into a well-formed catalog that has identifiers left for
/// all of them adds them, in the form in which the catalog keeps them, to
/// the rows of the catalog.
proof fn lemma_load_rows(c: CatalogView, rows: Seq<CsvRowView>, n: int)
    requires
        c.wf(),
        c.fits(n),
        n + rows.len() <= i64::MAX,
    ensures
        c.load_rows(rows).1,
        c.load_rows(rows).0.wf(),
        forall|x: CsvRowView|
            c.load_rows(rows).0.joined(x) <==> c.joined(x) || exists|i: int|
                0 <= i < rows.len() && x == stored_form(#[trigger] rows[i]),
    decreases rows.len(),
{
    if rows.len() > 0 {
        lemma_load_row(c, rows[0], n);
        let d = c.load_row(rows[0]).0;
        let rest = rows.skip(1);
        lemma_load_rows(d, rest, n + 1);
        let e = d.load_rows(rest).0;
        assert forall|x: CsvRowView|
            e.joined(x) <==> c.joined(x) || exists|i: int|
                0 <= i < rows.len() && x == stored_form(#[trigger] rows[i]) by {
            if e.joined(x) && !c.joined(x) {
                if x != stored_form(rows[0]) {
                    let i = choose|i: int| 0 <= i < rest.len() && x == stored_form(#[trigger] rest[i]);
                    assert(rest[i] == rows[i + 1]);
                }
            }
            if exists|i: int| 0 <= i < rows.len() && x == stored_form(#[trigger] rows[i]) {
                let i = choose|i: int| 0 <= i < rows.len() && x == stored_form(#[trigger] rows[i]);
                if i > 0 {
                    assert(rest[i - 1] == rows[i]);
                }
            }
        }
    }
}

/// `x` is the row of one of the batches `bs` under the product `p`.
pub open spec fn row_of_some_batch(
    s: SectionView,
    t: TypeView,
    p: ProductView,
    bs: Seq<BatchView>,
    x: CsvRowView,
) -> bool {
    exists|b: int|
        0 <= b < bs.len() && (#[trigger] bs[b]).product_id == p.id && x == row_of(s, t, p, bs[b])
}

impl CatalogView {
    /// `x` is the row of a batch of one of the products `ps`.
    pub open spec fn row_of_some_product(
        self,
        s: SectionView,
        t: TypeView,
        ps: Seq<ProductView>,
        x: CsvRowView,
    ) -> bool {
        exists|i: int|
            0 <= i < ps.len() && row_of_some_batch(s, t, #[trigger] ps[i], self.batches, x)
    }

    /// `x` is the row of a batch of a product of one of the types `ts`.
    pub open spec fn row_of_some_type(self, s: SectionView, ts: Seq<TypeView>, x: CsvRowView) -> bool {
        exists|i: int|
            0 <= i < ts.len() && self.row_of_some_product(
                s,
                #[trigger] ts[i],
                self.list_products(ts[i].id),
                x,
            )
    }

    /// `x` is the row of a batch of a product of a type of one of the
    /// sections `ss`.
    pub open spec fn row_of_some_section(self, ss: Seq<SectionView>, x: CsvRowView) -> bool {
        exists|i: int|
            0 <= i < ss.len() && self.row_of_some_type(
                #[trigger] ss[i],
                self.list_types(ss[i].id),
                x,
            )
    }
}

/// The rows of the batches of a product are the rows of its batches.
proof fn lemma_rows_of_batches(
    s: SectionView,
    t: TypeView,
    p: ProductView,
    bs: Seq<BatchView>,
    x: CsvRowView,
)
    ensures
        rows_of_batches(s, t, p, bs).contains(x) <==> row_of_some_batch(s, t, p, bs, x),
    decreases bs.len(),
{
    if bs.len() > 0 {
        let rest = bs.drop_last();
        lemma_rows_of_batches(s, t, p, rest, x);
        let r = rows_of_batches(s, t, p, rest);
        let all = rows_of_batches(s, t, p, bs);
        if all.contains(x) {
            let i = choose|i: int| 0 <= i < all.len() && all[i] == x;
            if i < r.len() {
                assert(r[i] == x);
                let b = choose|b: int|
                    0 <= b < rest.len() && (#[trigger] rest[b]).product_id == p.id && x == row_of(
                        s,
                        t,
                        p,
                        rest[b],
                    );
                assert(bs[b] == rest[b]);
            } else {
                assert(bs[bs.len() - 1].product_id == p.id);
            }
        }
        if row_of_some_batch(s, t, p, bs, x) {
            let b = choose|b: int|
                0 <= b < bs.len() && (#[trigger] bs[b]).product_id == p.id && x == row_of(
                    s,
                    t,
                    p,
                    bs[b],
                );
            if b < rest.len() {
                assert(rest[b] == bs[b]);
                let i = choose|i: int| 0 <= i < r.len() && r[i] == x;
                assert(all[i] == x);
            } else {
                assert(all[all.len() - 1] == x);
            }
        }
    }
}

/// A row is in two runs of rows put together exactly if it is in one of
/// them.
proof fn lemma_contains_add(a: Seq<CsvRowView>, b: Seq<CsvRowView>, x: CsvRowView)
    ensures
        (a + b).contains(x) <==> a.contains(x) || b.contains(x),
{
    if (a + b).contains(x) {
        let i = choose|i: int| 0 <= i < (a + b).len() && (a + b)[i] == x;
        if i < a.len() {
            assert(a[i] == x);
        } else {
            assert(b[i - a.len()] == x);
        }
    }
    if a.contains(x) {
        let i = choose|i: int| 0 <= i < a.len() && a[i] == x;
        assert((a + b)[i] == x);
    }
    if b.contains(x) {
        let i = choose|i: int| 0 <= i < b.len() && b[i] == x;
        assert((a + b)[i + a.len()] == x);
    }
}

/// The rows of some products are the rows of their batches.
proof fn lemma_rows_of_products(
    c: CatalogView,
    s: SectionView,
    t: TypeView,
    ps: Seq<ProductView>,
    x: CsvRowView,
)
    ensures
        c.rows_of_products(s, t, ps).contains(x) <==> c.row_of_some_product(s, t, ps, x),
    decreases ps.len(),
{
    if ps.len() > 0 {
        let rest = ps.drop_last();
        lemma_rows_of_products(c, s, t, rest, x);
        lemma_rows_of_batches(s, t, ps.last(), c.batches, x);
        lemma_contains_add(
            c.rows_of_products(s, t, rest),
            rows_of_batches(s, t, ps.last(), c.batches),
            x,
        );
        if c.row_of_some_product(s, t, rest, x) {
            let i = choose|i: int|
                0 <= i < rest.len() && row_of_some_batch(s, t, #[trigger] rest[i], c.batches, x);
            assert(ps[i] == rest[i]);
        }
        if c.row_of_some_product(s, t, ps, x) {
            let i = choose|i: int|
                0 <= i < ps.len() && row_of_some_batch(s, t, #[trigger] ps[i], c.batches, x);
            if i < rest.len() {
                assert(rest[i] == ps[i]);
            }
        } else {
            assert(ps[ps.len() - 1] == ps.last());
        }
    }
}

/// The rows of some types are the rows of the batches of their products.
proof fn lemma_rows_of_types(c: CatalogView, s: SectionView, ts: Seq<TypeView>, x: CsvRowView)
    ensures
        c.rows_of_types(s, ts).contains(x) <==> c.row_of_some_type(s, ts, x),
    decreases ts.len(),
{
    if ts.len() > 0 {
        let rest = ts.drop_last();
        lemma_rows_of_types(c, s, rest, x);
        lemma_rows_of_products(c, s, ts.last(), c.list_products(ts.last().id), x);
        lemma_contains_add(
            c.rows_of_types(s, rest),
            c.rows_of_products(s, ts.last(), c.list_products(ts.last().id)),
            x,
        );
        if c.row_of_some_type(s, rest, x) {
            let i = choose|i: int|
                0 <= i < rest.len() && c.row_of_some_product(
                    s,
                    #[trigger] rest[i],
                    c.list_products(rest[i].id),
                    x,
                );
            assert(ts[i] == rest[i]);
        }
        if c.row_of_some_type(s, ts, x) {
            let i = choose|i: int|
                0 <= i < ts.len() && c.row_of_some_product(
                    s,
                    #[trigger] ts[i],
                    c.list_products(ts[i].id),
                    x,
                );
            if i < rest.len() {
                assert(rest[i] == ts[i]);
            }
        } else {
            assert(ts[ts.len() - 1] == ts.last());
        }
    }
}

/// The rows of some sections are the rows of the batches of the products
/// of their types.
proof fn lemma_rows_of_sections(c: CatalogView, ss: Seq<SectionView>, x: CsvRowView)
    ensures
        c.rows_of_sections(ss).contains(x) <==> c.row_of_some_section(ss, x),
    decreases ss.len(),
{
    if ss.len() > 0 {
        let rest = ss.drop_last();
        lemma_rows_of_sections(c, rest, x);
        lemma_rows_of_types(c, ss.last(), c.list_types(ss.last().id), x);
        lemma_contains_add(
            c.rows_of_sections(rest),
            c.rows_of_types(ss.last(), c.list_types(ss.last().id)),
            x,
        );
        if c.row_of_some_section(rest, x) {
            let i = choose|i: int|
                0 <= i < rest.len() && c.row_of_some_type(
                    #[trigger] rest[i],
                    c.list_types(rest[i].id),
                    x,
                );
            assert(ss[i] == rest[i]);
        }
        if c.row_of_some_section(ss, x) {
            let i = choose|i: int|
                0 <= i < ss.len() && c.row_of_some_type(
                    #[trigger] ss[i],
                    c.list_types(ss[i].id),
                    x,
                );
            if i < rest.len() {
                assert(rest[i] == ss[i]);
            }
        } else {
            assert(ss[ss.len() - 1] == ss.last());
        }
    }
}

/// The exported rows are the rows of the catalog: every batch that is
/// linked to a product, a type and a section has its row in the export, and
/// the export has no other row.
pub proof fn law_export_is_complete(c: CatalogView, x: CsvRowView)
    ensures
        c.export_rows().contains(x) <==> c.joined(x),
{
    let ss = c.list_sections();
    lemma_rows_of_sections(c, ss, x);
    if c.row_of_some_section(ss, x) {
        let i = choose|i: int|
            0 <= i < ss.len() && c.row_of_some_type(#[trigger] ss[i], c.list_types(ss[i].id), x);
        let sv = ss[i];
        let ts = c.list_types(sv.id);
        let j = choose|j: int|
            0 <= j < ts.len() && c.row_of_some_product(
                sv,
                #[trigger] ts[j],
                c.list_products(ts[j].id),
                x,
            );
        let tv = ts[j];
        let ps = c.list_products(tv.id);
        let k = choose|k: int|
            0 <= k < ps.len() && row_of_some_batch(sv, tv, #[trigger] ps[k], c.batches, x);
        let pv = ps[k];
        let b = choose|b: int|
            0 <= b < c.batches.len() && (#[trigger] c.batches[b]).product_id == pv.id && x
                == row_of(sv, tv, pv, c.batches[b]);
        lemma_sorted_contains(c.sections, sv);
        lemma_listed_contains(c.types, sv.id, tv);
        lemma_listed_contains(c.products, tv.id, pv);
        assert(ss.contains(sv));
        assert(ts.contains(tv));
        assert(ps.contains(pv));
        let s = choose|s: int| 0 <= s < c.sections.len() && c.sections[s] == sv;
        let t = choose|t: int| 0 <= t < c.types.len() && c.types[t] == tv;
        let p = choose|p: int| 0 <= p < c.products.len() && c.products[p] == pv;
        assert(c.linked(s, t, p, b));
    }
    if c.joined(x) {
        let (s, t, p, b) = choose|s: int, t: int, p: int, b: int| #[trigger]
            c.linked(s, t, p, b) && x == row_of(
                c.sections[s],
                c.types[t],
                c.products[p],
                c.batches[b],
            );
        let sv = c.sections[s];
        let tv = c.types[t];
        let pv = c.products[p];
        lemma_sorted_contains(c.sections, sv);
        lemma_listed_contains(c.types, sv.id, tv);
        lemma_listed_contains(c.products, tv.id, pv);
        assert(c.sections.contains(sv));
        assert(c.types.contains(tv));
        assert(c.products.contains(pv));
        let ts = c.list_types(sv.id);
        let ps = c.list_products(tv.id);
        let i = choose|i: int| 0 <= i < ss.len() && ss[i] == sv;
        let j = choose|j: int| 0 <= j < ts.len() && ts[j] == tv;
        let k = choose|k: int| 0 <= k < ps.len() && ps[k] == pv;
        assert(row_of_some_batch(sv, tv, ps[k], c.batches, x));
        assert(c.row_of_some_product(sv, ts[j], c.list_products(ts[j].id), x));
        assert(c.row_of_some_type(ss[i], c.list_types(ss[i].id), x));
    }
}

/// `x` does not come after `y` in the order of the export: by section
/// name, among rows of one section name by type name, among rows of one
/// type name too by product name.
pub open spec fn row_le(x: CsvRowView, y: CsvRowView) -> bool {
    if x.section != y.section {
        text_le(x.section, y.section)
    } else if x.product_type != y.product_type {
        text_le(x.product_type, y.product_type)
    } else {
        text_le(x.product, y.product)
    }
}

/// No row comes after a later one.
pub open spec fn rows_in_order(rows: Seq<CsvRowView>) -> bool {
    forall|i: int, j: int| 0 <= i < j < rows.len() ==> row_le(#[trigger] rows[i], #[trigger] rows[j])
}

/// Two ordered runs of rows, each row of the first before each row of the
/// second, make an ordered run.
proof fn lemma_rows_in_order_add(a: Seq<CsvRowView>, b: Seq<CsvRowView>)
    requires
        rows_in_order(a),
        rows_in_order(b),
        forall|i: int, j: int|
            0 <= i < a.len() && 0 <= j < b.len() ==> row_le(#[trigger] a[i], #[trigger] b[j]),
    ensures
        rows_in_order(a + b),
{
    let r = a + b;
    assert forall|i: int, j: int| 0 <= i < j < r.len() implies row_le(
        #[trigger] r[i],
        #[trigger] r[j],
    ) by {
        if j < a.len() {
            assert(row_le(a[i], a[j]));
        } else if i < a.len() {
            assert(row_le(a[i], b[j - a.len()]));
        } else {
            assert(row_le(b[i - a.len()], b[j - a.len()]));
        }
    }
}

/// The rows of the batches of one product are in order.
proof fn lemma_batches_in_order(s: SectionView, t: TypeView, p: ProductView, bs: Seq<BatchView>)
    ensures
        rows_in_order(rows_of_batches(s, t, p, bs)),
{
    let r = rows_of_batches(s, t, p, bs);
    lemma_text_le_refl(p.name);
    assert forall|i: int, j: int| 0 <= i < j < r.len() implies row_le(
        #[trigger] r[i],
        #[trigger] r[j],
    ) by {
        lemma_rows_of_batches(s, t, p, bs, r[i]);
        lemma_rows_of_batches(s, t, p, bs, r[j]);
        assert(r.contains(r[i]) && r.contains(r[j]));
    }
}

/// The rows of products in the order of their names are in order.
proof fn lemma_products_in_order(c: CatalogView, s: SectionView, t: TypeView, ps: Seq<ProductView>)
    requires
        in_order(ps),
    ensures
        rows_in_order(c.rows_of_products(s, t, ps)),
    decreases ps.len(),
{
    if ps.len() > 0 {
        let rest = ps.drop_last();
        assert forall|i: int, j: int| 0 <= i < j < rest.len() implies text_le(
            #[trigger] rest[i].sort_key(),
            #[trigger] rest[j].sort_key(),
        ) by {
            assert(text_le(ps[i].sort_key(), ps[j].sort_key()));
        }
        lemma_products_in_order(c, s, t, rest);
        lemma_batches_in_order(s, t, ps.last(), c.batches);
        let a = c.rows_of_products(s, t, rest);
        let b = rows_of_batches(s, t, ps.last(), c.batches);
        assert forall|i: int, j: int| 0 <= i < a.len() && 0 <= j < b.len() implies row_le(
            #[trigger] a[i],
            #[trigger] b[j],
        ) by {
            lemma_rows_of_products(c, s, t, rest, a[i]);
            lemma_rows_of_batches(s, t, ps.last(), c.batches, b[j]);
            assert(a.contains(a[i]) && b.contains(b[j]));
            let k = choose|k: int|
                0 <= k < rest.len() && row_of_some_batch(s, t, #[trigger] rest[k], c.batches, a[i]);
            assert(text_le(ps[k].sort_key(), ps[ps.len() - 1].sort_key()));
        }
        lemma_rows_in_order_add(a, b);
    }
}

/// The rows of types in the order of their names, no two of one name, are
/// in order.
proof fn lemma_types_in_order(c: CatalogView, s: SectionView, ts: Seq<TypeView>)
    requires
        in_order(ts),
        distinct_keys(ts),
    ensures
        rows_in_order(c.rows_of_types(s, ts)),
    decreases ts.len(),
{
    if ts.len() > 0 {
        let rest = ts.drop_last();
        assert forall|i: int, j: int| 0 <= i < j < rest.len() implies text_le(
            #[trigger] rest[i].sort_key(),
            #[trigger] rest[j].sort_key(),
        ) && rest[i].sort_key() != rest[j].sort_key() by {
            assert(text_le(ts[i].sort_key(), ts[j].sort_key()));
            assert(ts[i].sort_key() != ts[j].sort_key());
        }
        lemma_types_in_order(c, s, rest);
        let last = ts.last();
        lemma_listed_in_order(c.products, last.id);
        lemma_products_in_order(c, s, last, c.list_products(last.id));
        let a = c.rows_of_types(s, rest);
        let b = c.rows_of_products(s, last, c.list_products(last.id));
        assert forall|i: int, j: int| 0 <= i < a.len() && 0 <= j < b.len() implies row_le(
            #[trigger] a[i],
            #[trigger] b[j],
        ) by {
            lemma_rows_of_types(c, s, rest, a[i]);
            lemma_rows_of_products(c, s, last, c.list_products(last.id), b[j]);
            assert(a.contains(a[i]) && b.contains(b[j]));
            let k = choose|k: int|
                0 <= k < rest.len() && c.row_of_some_product(
                    s,
                    #[trigger] rest[k],
                    c.list_products(rest[k].id),
                    a[i],
                );
            assert(text_le(ts[k].sort_key(), ts[ts.len() - 1].sort_key()));
            assert(ts[k].sort_key() != ts[ts.len() - 1].sort_key());
        }
        lemma_rows_in_order_add(a, b);
    }
}

/// The rows of sections in the order of their names, no two of one name,
/// are in order.
proof fn lemma_sections_in_order(c: CatalogView, ss: Seq<SectionView>)
    requires
        c.wf(),
        in_order(ss),
        distinct_keys(ss),
    ensures
        rows_in_order(c.rows_of_sections(ss)),
    decreases ss.len(),
{
    if ss.len() > 0 {
        let rest = ss.drop_last();
        assert forall|i: int, j: int| 0 <= i < j < rest.len() implies text_le(
            #[trigger] rest[i].sort_key(),
            #[trigger] rest[j].sort_key(),
        ) && rest[i].sort_key() != rest[j].sort_key() by {
            assert(text_le(ss[i].sort_key(), ss[j].sort_key()));
            assert(ss[i].sort_key() != ss[j].sort_key());
        }
        lemma_sections_in_order(c, rest);
        let last = ss.last();
        lemma_listed_in_order(c.types, last.id);
        lemma_types_in_order(c, last, c.list_types(last.id));
        let a = c.rows_of_sections(rest);
        let b = c.rows_of_types(last, c.list_types(last.id));
        assert forall|i: int, j: int| 0 <= i < a.len() && 0 <= j < b.len() implies row_le(
            #[trigger] a[i],
            #[trigger] b[j],
        ) by {
            lemma_rows_of_sections(c, rest, a[i]);
            lemma_rows_of_types(c, last, c.list_types(last.id), b[j]);
            assert(a.contains(a[i]) && b.contains(b[j]));
            let k = choose|k: int|
                0 <= k < rest.len() && c.row_of_some_type(
                    #[trigger] rest[k],
                    c.list_types(rest[k].id),
                    a[i],
                );
            assert(text_le(ss[k].sort_key(), ss[ss.len() - 1].sort_key()));
            assert(ss[k].sort_key() != ss[ss.len() - 1].sort_key());
        }
        lemma_rows_in_order_add(a, b);
    }
}

/// The exported rows are in order: by section name, then by type name,
/// then by product name.
pub proof fn law_export_is_ordered(c: CatalogView)
    requires
        c.wf(),
    ensures
        rows_in_order(c.export_rows()),
{
    lemma_sorted(c.sections);
    assert(distinct_keys(c.sections));
    lemma_sorted_distinct_keys(c.sections);
    lemma_sections_in_order(c, c.list_sections());
}

/// The rows of a catalog survive an export followed by an import: the
/// import succeeds, skips no line, and leaves a catalog with the same set
/// of rows, whatever its identifiers. This holds where every exported field
/// is plain and every exported product name is its own upper-case form, so
/// that it is read back as it was written, and where the rows are fewer
/// than the identifiers of a table.
pub proof fn law_export_import_round_trip(c: CatalogView)
    requires
        c.wf(),
        c.export_rows().len() <= i64::MAX,
        forall|i: int|
            0 <= i < c.export_rows().len() ==> plain_row(#[trigger] c.export_rows()[i])
                && uppercase_of(c.export_rows()[i].product) == c.export_rows()[i].product,
    ensures
        c.import(c.export()).1 == Ok::<(nat, nat), StoreError>((c.export_rows().len(), 0nat)),
        c.import(c.export()).0.wf(),
        c.import(c.export()).0.tuples() == c.tuples(),
{
    let rows = c.export_rows();
    law_table_reads_back(rows);
    let start = CatalogView::empty();
    lemma_load_rows(start, rows, 0);
    let d = start.load_rows(rows).0;
    assert(c.import(c.export()).0 == d);
    assert forall|x: CsvRowView| d.joined(x) <==> c.joined(x) by {
        law_export_is_complete(c, x);
        assert(!start.joined(x)) by {
            if start.joined(x) {
                let (s, t, p, b) = choose|s: int, t: int, p: int, b: int| #[trigger]
                    start.linked(s, t, p, b) && x == row_of(
                        start.sections[s],
                        start.types[t],
                        start.products[p],
                        start.batches[b],
                    );
            }
        }
        if d.joined(x) {
            let i = choose|i: int| 0 <= i < rows.len() && x == stored_form(#[trigger] rows[i]);
            assert(stored_form(rows[i]) == rows[i]);
            assert(rows.contains(x));
        }
        if c.joined(x) {
            let i = choose|i: int| 0 <= i < rows.len() && rows[i] == x;
            assert(stored_form(rows[i]) == rows[i]);
        }
    }
    assert(d.tuples() =~= c.tuples());
}

} // verus!
