//! Bulk exchange: writing the whole catalog out as a table, and replacing
//! the whole catalog by the rows of a table.

use vstd::prelude::*;
use crate::catalog::{Catalog, CatalogView};
use crate::csv::{parse_csv, parse_table, render_csv, write_table, CsvRow, CsvRowView};
use crate::rows::{
    lemma_views_push, views, BatchView, Product, ProductView, Section, SectionView,
    StoreError, Type, TypeView,
};
use crate::table::{
    find_key, find_key_under, has_key, has_key_under, index_of_key, index_of_key_under,
    lemma_index_of_key, lemma_index_of_key_under, next_id,
};
use crate::text::{to_upper, uppercase_of};

verus! {

/// How many rows a table brought into the catalog, and how many of its
/// lines were malformed and left out.
#[derive(Debug, Clone, Copy, PartialEq, Eq, Structural)]
pub struct ImportSummary {
    pub imported: usize,
    pub skipped: usize,
}

/// The row of a batch under the given section, type and product.
pub open spec fn row_of(s: SectionView, t: TypeView, p: ProductView, b: BatchView) -> CsvRowView {
    CsvRowView {
        section: s.name,
        product_type: t.name,
        product: p.name,
        expiry_date: b.expiry_date,
        total_quantity: b.total_quantity,
        shelf_quantity: b.shelf_quantity,
    }
}

/// The rows of those of the batches `bs` that belong to the product `p`, in
/// the order of `bs`.
pub open spec fn rows_of_batches(
    s: SectionView,
    t: TypeView,
    p: ProductView,
    bs: Seq<BatchView>,
) -> Seq<CsvRowView>
    decreases bs.len(),
{
    if bs.len() == 0 {
        Seq::empty()
    } else if bs.last().product_id == p.id {
        rows_of_batches(s, t, p, bs.drop_last()).push(row_of(s, t, p, bs.last()))
    } else {
        rows_of_batches(s, t, p, bs.drop_last())
    }
}

impl CatalogView {
    /// The rows of the products `ps` of the type `t`, product after product.
    pub open spec fn rows_of_products(
        self,
        s: SectionView,
        t: TypeView,
        ps: Seq<ProductView>,
    ) -> Seq<CsvRowView>
        decreases ps.len(),
    {
        if ps.len() == 0 {
            Seq::empty()
        } else {
            self.rows_of_products(s, t, ps.drop_last()) + rows_of_batches(
                s,
                t,
                ps.last(),
                self.batches,
            )
        }
    }

    /// The rows of the types `ts` of the section `s`, type after type, the
    /// products of each by name.
    pub open spec fn rows_of_types(self, s: SectionView, ts: Seq<TypeView>) -> Seq<CsvRowView>
        decreases ts.len(),
    {
        if ts.len() == 0 {
            Seq::empty()
        } else {
            self.rows_of_types(s, ts.drop_last()) + self.rows_of_products(
                s,
                ts.last(),
                self.list_products(ts.last().id),
            )
        }
    }

    /// The rows of the sections `ss`, section after section, the types of
    /// each by name.
    pub open spec fn rows_of_sections(self, ss: Seq<SectionView>) -> Seq<CsvRowView>
        decreases ss.len(),
    {
        if ss.len() == 0 {
            Seq::empty()
        } else {
            self.rows_of_sections(ss.drop_last()) + self.rows_of_types(
                ss.last(),
                self.list_types(ss.last().id),
            )
        }
    }

    /// One row for each batch, by section name, then type name, then product
    /// name; the batches of one product in the order in which they were
    /// created. A section, type or product without batches has no row.
    pub open spec fn export_rows(self) -> Seq<CsvRowView> {
        self.rows_of_sections(self.list_sections())
    }

    /// The catalog as the text of a table.
    pub open spec fn export(self) -> Seq<char> {
        render_csv(self.export_rows())
    }

    /// The section named `name`, created if there is none: the catalog
    /// afterwards and the section's identifier, or `None` if it had to be
    /// created and no identifier was left.
    pub open spec fn ensure_section(self, name: Seq<char>) -> (CatalogView, Option<i64>) {
        if has_key(self.sections, name) {
            (self, Some(self.sections[index_of_key(self.sections, name)].id))
        } else {
            match self.create_section(name) {
                Ok(after) => (after, Some(next_id(self.sections) as i64)),
                Err(_) => (self, None),
            }
        }
    }

    /// The type named `name` in the section `section_id`, created if there
    /// is none.
    pub open spec fn ensure_type(self, name: Seq<char>, section_id: i64) -> (
        CatalogView,
        Option<i64>,
    ) {
        if has_key_under(self.types, name, section_id) {
            (self, Some(self.types[index_of_key_under(self.types, name, section_id)].id))
        } else {
            match self.create_type(name, section_id) {
                Ok(after) => (after, Some(next_id(self.types) as i64)),
                Err(_) => (self, None),
            }
        }
    }

    /// The product under the type `type_id` whose name is the upper-case
    /// form of `name`, created if there is none.
    pub open spec fn ensure_product(self, name: Seq<char>, type_id: i64) -> (
        CatalogView,
        Option<i64>,
    ) {
        if has_key_under(self.products, uppercase_of(name), type_id) {
            (
                self,
                Some(
                    self.products[index_of_key_under(
                        self.products,
                        uppercase_of(name),
                        type_id,
                    )].id,
                ),
            )
        } else {
            match self.create_product(name, type_id) {
                Ok(after) => (after, Some(next_id(self.products) as i64)),
                Err(_) => (self, None),
            }
        }
    }

    /// Bringing one row into the catalog: its section, type and product are
    /// looked up by name and created where they are missing, then its batch
    /// is stored with the quantities as they are given. The result is the
    /// catalog afterwards and whether the batch was stored; it was not if
    /// the identifiers of a table ran out, and what had been created for the
    /// row until then stays.
    pub open spec fn load_row(self, row: CsvRowView) -> (CatalogView, bool) {
        let (c1, section) = self.ensure_section(row.section);
        if section is None {
            (c1, false)
        } else {
            let (c2, kind) = c1.ensure_type(row.product_type, section->0);
            if kind is None {
                (c2, false)
            } else {
                let (c3, product) = c2.ensure_product(row.product, kind->0);
                if product is None {
                    (c3, false)
                } else {
                    match c3.insert_batch(
                        product->0,
                        row.expiry_date,
                        row.total_quantity,
                        row.shelf_quantity,
                    ) {
                        Ok(c4) => (c4, true),
                        Err(_) => (c3, false),
                    }
                }
            }
        }
    }

    /// Bringing rows into the catalog one after the other, up to the first
    /// that cannot be stored: the catalog afterwards, and whether all rows
    /// were stored.
    pub open spec fn load_rows(self, rows: Seq<CsvRowView>) -> (CatalogView, bool)
        decreases rows.len(),
    {
        if rows.len() == 0 {
            (self, true)
        } else {
            let (after, stored) = self.load_row(rows[0]);
            if stored {
                after.load_rows(rows.skip(1))
            } else {
                (after, false)
            }
        }
    }

    /// Replacing the catalog by the rows of the table that `text` holds. A
    /// text that is no table is rejected and the catalog stays as it is.
    /// Otherwise everything is deleted and the rows are brought in.
    pub open spec fn import(self, text: Seq<char>) -> (CatalogView, Result<(nat, nat), StoreError>) {
        match parse_csv(text) {
            Err(e) => (self, Err(e)),
            Ok((rows, skipped)) => {
                let (after, stored) = CatalogView::empty().load_rows(rows);
                if stored {
                    (after, Ok((rows.len(), skipped)))
                } else {
                    (after, Err(StoreError::StorageFailure))
                }
            },
        }
    }
}

/// Every row has its shelf quantity within its total quantity.
pub open spec fn rows_in_bounds(rows: Seq<CsvRowView>) -> bool {
    forall|i: int|
        0 <= i < rows.len() ==> (#[trigger] rows[i]).shelf_quantity <= rows[i].total_quantity
}

impl Catalog {
    /// Adds to `out` the rows of the batches of one product.
    fn push_product_rows(&self, s: &Section, t: &Type, p: &Product, out: &mut Vec<CsvRow>)
        ensures
            views(final(out)@) == views(old(out)@) + rows_of_batches(s@, t@, p@, self@.batches),
    {
        let mut i: usize = 0;
        let ghost base = views(out@);
        let ghost bs = self@.batches;
        assert(bs.take(0) =~= Seq::<BatchView>::empty());
        assert(views(out@) =~= base + rows_of_batches(s@, t@, p@, bs.take(0)));
        while i < self.batches.len()
            invariant
                i <= self.batches.len(),
                bs == self@.batches,
                views(out@) == base + rows_of_batches(s@, t@, p@, bs.take(i as int)),
            decreases self.batches.len() - i,
        {
            assert(bs.take(i + 1).drop_last() =~= bs.take(i as int));
            assert(bs.take(i + 1).last() == self.batches@[i as int]@);
            let b = &self.batches[i];
            if b.product_id == p.id {
                let row = CsvRow {
                    section: s.name.clone(),
                    product_type: t.name.clone(),
                    product: p.name.clone(),
                    expiry_date: b.expiry_date.clone(),
                    total_quantity: b.total_quantity,
                    shelf_quantity: b.shelf_quantity,
                };
                proof {
                    lemma_views_push(out@, row);
                    assert(row@ == row_of(s@, t@, p@, b@));
                }
                out.push(row);
                assert(views(out@) =~= base + rows_of_batches(s@, t@, p@, bs.take(i + 1)));
            }
            i += 1;
        }
        assert(bs.take(self.batches.len() as int) =~= bs);
    }

    /// Adds to `out` the rows of one type, its products by name.
    fn push_type_rows(&self, s: &Section, t: &Type, out: &mut Vec<CsvRow>)
        ensures
            views(final(out)@) == views(old(out)@) + self@.rows_of_products(
                s@,
                t@,
                self@.list_products(t@.id),
            ),
    {
        let products = self.list_products(t.id);
        let ghost base = views(out@);
        let ghost ps = views(products@);
        let mut i: usize = 0;
        assert(ps.take(0) =~= Seq::<ProductView>::empty());
        assert(views(out@) =~= base + self@.rows_of_products(s@, t@, ps.take(0)));
        while i < products.len()
            invariant
                i <= products.len(),
                ps == views(products@),
                views(out@) == base + self@.rows_of_products(s@, t@, ps.take(i as int)),
            decreases products.len() - i,
        {
            assert(ps.take(i + 1).drop_last() =~= ps.take(i as int));
            assert(ps.take(i + 1).last() == products@[i as int]@);
            self.push_product_rows(s, t, &products[i], out);
            assert(views(out@) =~= base + self@.rows_of_products(s@, t@, ps.take(i + 1)));
            i += 1;
        }
        assert(ps.take(products.len() as int) =~= ps);
    }

    /// Adds to `out` the rows of one section, its types by name.
    fn push_section_rows(&self, s: &Section, out: &mut Vec<CsvRow>)
        ensures
            views(final(out)@) == views(old(out)@) + self@.rows_of_types(
                s@,
                self@.list_types(s@.id),
            ),
    {
        let types = self.list_types(s.id);
        let ghost base = views(out@);
        let ghost ts = views(types@);
        let mut i: usize = 0;
        assert(ts.take(0) =~= Seq::<TypeView>::empty());
        assert(views(out@) =~= base + self@.rows_of_types(s@, ts.take(0)));
        while i < types.len()
            invariant
                i <= types.len(),
                ts == views(types@),
                views(out@) == base + self@.rows_of_types(s@, ts.take(i as int)),
            decreases types.len() - i,
        {
            assert(ts.take(i + 1).drop_last() =~= ts.take(i as int));
            assert(ts.take(i + 1).last() == types@[i as int]@);
            self.push_type_rows(s, &types[i], out);
            assert(views(out@) =~= base + self@.rows_of_types(s@, ts.take(i + 1)));
            i += 1;
        }
        assert(ts.take(types.len() as int) =~= ts);
    }

    /// One row for each batch of the catalog, by section name, then type
    /// name, then product name.
    pub fn export_rows(&self) -> (rows: Vec<CsvRow>)
        ensures
            views(rows@) == self@.export_rows(),
    {
        let sections = self.list_sections();
        let mut out: Vec<CsvRow> = Vec::new();
        let ghost ss = views(sections@);
        let mut i: usize = 0;
        assert(ss.take(0) =~= Seq::<SectionView>::empty());
        assert(views(out@) =~= self@.rows_of_sections(ss.take(0)));
        while i < sections.len()
            invariant
                i <= sections.len(),
                ss == views(sections@),
                views(out@) == self@.rows_of_sections(ss.take(i as int)),
            decreases sections.len() - i,
        {
            assert(ss.take(i + 1).drop_last() =~= ss.take(i as int));
            assert(ss.take(i + 1).last() == sections@[i as int]@);
            self.push_section_rows(&sections[i], &mut out);
            i += 1;
        }
        assert(ss.take(sections.len() as int) =~= ss);
        out
    }

    /// The catalog as the text of a table: the header line, then one line
    /// for each batch.
    pub fn export(&self) -> (text: String)
        ensures
            text@ == self@.export(),
    {
        let rows = self.export_rows();
        write_table(&rows)
    }

    /// The identifier of the section named `name`, which is created if there
    /// is none; `None` if it had to be created and no identifier was left.
    fn ensure_section(&mut self, name: &String) -> (r: Option<i64>)
        requires
            old(self)@.wf(),
        ensures
            final(self)@.wf(),
            (final(self)@, r) == old(self)@.ensure_section(name@),
            old(self)@.stock_in_bounds() ==> final(self)@.stock_in_bounds(),
    {
        match find_key(&self.sections, name) {
            Some(i) => {
                proof {
                    lemma_index_of_key(self@.sections, i as int);
                }
                Some(self.sections[i].id)
            },
            None => {
                match self.create_section(name.clone()) {
                    Ok(id) => Some(id),
                    Err(_) => None,
                }
            },
        }
    }

    /// The identifier of the type named `name` in a section, which is
    /// created if there is none.
    fn ensure_type(&mut self, name: &String, section_id: i64) -> (r: Option<i64>)
        requires
            old(self)@.wf(),
        ensures
            final(self)@.wf(),
            (final(self)@, r) == old(self)@.ensure_type(name@, section_id),
            old(self)@.stock_in_bounds() ==> final(self)@.stock_in_bounds(),
    {
        match find_key_under(&self.types, name, section_id) {
            Some(i) => {
                proof {
                    lemma_index_of_key_under(self@.types, i as int);
                }
                Some(self.types[i].id)
            },
            None => {
                match self.create_type(name.clone(), section_id) {
                    Ok(id) => Some(id),
                    Err(_) => None,
                }
            },
        }
    }

    /// The identifier of the product under a type whose name is the
    /// upper-case form of `name`, which is created if there is none.
    fn ensure_product(&mut self, name: &String, type_id: i64) -> (r: Option<i64>)
        requires
            old(self)@.wf(),
        ensures
            final(self)@.wf(),
            (final(self)@, r) == old(self)@.ensure_product(name@, type_id),
            old(self)@.stock_in_bounds() ==> final(self)@.stock_in_bounds(),
    {
        let upper = to_upper(name.as_str());
        match find_key_under(&self.products, &upper, type_id) {
            Some(i) => {
                proof {
                    lemma_index_of_key_under(self@.products, i as int);
                }
                Some(self.products[i].id)
            },
            None => {
                match self.create_product(name.clone(), type_id) {
                    Ok(id) => Some(id),
                    Err(_) => None,
                }
            },
        }
    }

    /// Brings one row into the catalog. Fails with `StorageFailure` if the
    /// identifiers of a table ran out; what was created for the row until
    /// then stays.
    pub fn load_row(&mut self, row: &CsvRow) -> (r: Result<(), StoreError>)
        requires
            old(self)@.wf(),
        ensures
            final(self)@.wf(),
            final(self)@ == old(self)@.load_row(row@).0,
            r is Ok <==> old(self)@.load_row(row@).1,
            r is Err ==> r == Err::<(), StoreError>(StoreError::StorageFailure),
            old(self)@.stock_in_bounds() && row@.shelf_quantity <= row@.total_quantity
                ==> final(self)@.stock_in_bounds(),
    {
        let section = match self.ensure_section(&row.section) {
            Some(id) => id,
            None => {
                return Err(StoreError::StorageFailure);
            },
        };
        let kind = match self.ensure_type(&row.product_type, section) {
            Some(id) => id,
            None => {
                return Err(StoreError::StorageFailure);
            },
        };
        let product = match self.ensure_product(&row.product, kind) {
            Some(id) => id,
            None => {
                return Err(StoreError::StorageFailure);
            },
        };
        match self.insert_batch(
            product,
            row.expiry_date.clone(),
            row.total_quantity,
            row.shelf_quantity,
        ) {
            Ok(_) => Ok(()),
            Err(_) => Err(StoreError::StorageFailure),
        }
    }

    /// Replaces the catalog by the given rows: deletes everything, then
    /// brings the rows in one after the other. Fails with `StorageFailure`
    /// at the first row that cannot be stored; the rows before it stay.
    pub fn replace_all(&mut self, rows: &Vec<CsvRow>) -> (r: Result<(), StoreError>)
        ensures
            final(self)@.wf(),
            final(self)@ == CatalogView::empty().load_rows(views(rows@)).0,
            r is Ok <==> CatalogView::empty().load_rows(views(rows@)).1,
            r is Err ==> r == Err::<(), StoreError>(StoreError::StorageFailure),
            rows_in_bounds(views(rows@)) ==> final(self)@.stock_in_bounds(),
    {
        *self = Catalog::new();
        let ghost all = views(rows@);
        let mut i: usize = 0;
        assert(all.skip(0) =~= all);
        while i < rows.len()
            invariant
                i <= rows.len(),
                all == views(rows@),
                self@.wf(),
                self@.load_rows(all.skip(i as int)) == CatalogView::empty().load_rows(all),
                rows_in_bounds(all) ==> self@.stock_in_bounds(),
            decreases rows.len() - i,
        {
            assert(all.skip(i as int)[0] == rows@[i as int]@);
            assert(all.skip(i as int).skip(1) =~= all.skip(i + 1));
            assert(rows_in_bounds(all) ==> all[i as int].shelf_quantity
                <= all[i as int].total_quantity);
            match self.load_row(&rows[i]) {
                Ok(_) => {},
                Err(e) => {
                    return Err(e);
                },
            }
            i += 1;
        }
        Ok(())
    }

    /// Replaces the catalog by the table that `text` holds. Fails with
    /// `InvalidFormat`, and changes nothing, if the text has no header line
    /// that names the section column. Otherwise deletes everything and
    /// brings in the rows of the well-formed lines; fails with
    /// `StorageFailure` at the first row that cannot be stored, the rows
    /// before it staying.
    pub fn import(&mut self, text: &str) -> (r: Result<ImportSummary, StoreError>)
        requires
            old(self)@.wf(),
        ensures
            final(self)@.wf(),
            final(self)@ == old(self)@.import(text@).0,
            match r {
                Ok(summary) => old(self)@.import(text@).1 == Ok::<(nat, nat), StoreError>(
                    (summary.imported as nat, summary.skipped as nat),
                ),
                Err(e) => old(self)@.import(text@).1 == Err::<(nat, nat), StoreError>(e),
            },
            parse_csv(text@) is Err ==> r == Err::<ImportSummary, StoreError>(
                StoreError::InvalidFormat,
            ) && final(self)@ == old(self)@,
            old(self)@.stock_in_bounds() && (parse_csv(text@) matches Ok(table) ==> rows_in_bounds(
                table.0,
            )) ==> final(self)@.stock_in_bounds(),
    {
        match parse_table(text) {
            Err(e) => Err(e),
            Ok(table) => {
                match self.replace_all(&table.rows) {
                    Ok(_) => Ok(
                        ImportSummary { imported: table.rows.len(), skipped: table.skipped },
                    ),
                    Err(e) => Err(e),
                }
            },
        }
    }
}

} // verus!
