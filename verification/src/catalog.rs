//! The catalog store: four tables of records, the constraints that tie them
//! together, and the operations that create, list, delete and search.
//!
//! The store is modelled by `CatalogView`, four sequences of record views in
//! the order in which the records were created. Every operation is first
//! written as a function on that model; the executable operation of the same
//! name is proved to do to the store what the function says.

use vstd::prelude::*;
use crate::rows::{
    lemma_views_push, views, Batch, BatchView, Keyed, Product, ProductView, Section, SectionView,
    StoreError, Type, TypeView,
};
use crate::order::{distinct_keys, sorted};
use crate::table::{
    distinct_ids, distinct_keys_per_owner, find_id, find_key, find_key_under, fresh_id, has_id,
    has_key, has_key_under, ids_are_distinct, keep_owned_among, keys_are_distinct,
    keys_are_distinct_per_owner, lemma_filter_all, lemma_filter_contains, lemma_filter_is_member,
    lemma_filter_keeps_distinct, lemma_filter_keeps_distinct_keys, lemma_next_id_is_new,
    lemma_owners_exist_more_parents, lemma_owners_exist_push, lemma_push_distinct_ids,
    lemma_push_distinct_keys, lemma_push_distinct_keys_per_owner, list_all, list_owned_by,
    listed_under, next_id, not_id, owner_among, owners_are_present, owners_exist, remove_id,
};
use crate::text::{chars_of, contains, contains_text, to_upper, uppercase_of};

verus! {

/// The mathematical content of a catalog.
pub struct CatalogView {
    pub sections: Seq<SectionView>,
    pub types: Seq<TypeView>,
    pub products: Seq<ProductView>,
    pub batches: Seq<BatchView>,
}

/// `name` is the upper-case form of some text.
pub open spec fn is_upper_form(name: Seq<char>) -> bool {
    exists|t: Seq<char>| #[trigger] uppercase_of(t) == name
}

/// The test "its name contains `needle`".
pub open spec fn name_contains(needle: Seq<char>) -> spec_fn(ProductView) -> bool {
    |p: ProductView| contains_text(p.name, needle)
}

/// The state that an operation leaves behind: the new one where it
/// succeeded, the one before it where it failed.
pub open spec fn state_after(before: CatalogView, step: Result<CatalogView, StoreError>) -> CatalogView {
    match step {
        Ok(after) => after,
        Err(_) => before,
    }
}

impl CatalogView {
    /// The catalog without any record.
    pub open spec fn empty() -> CatalogView {
        CatalogView {
            sections: Seq::empty(),
            types: Seq::empty(),
            products: Seq::empty(),
            batches: Seq::empty(),
        }
    }

    /// The constraints that tie the tables together: identifiers are unique
    /// within a table; section names are unique, type names within a
    /// section, product names within a type; every type, product and batch
    /// belongs to a record that exists.
    pub open spec fn well_linked(self) -> bool {
        &&& distinct_ids(self.sections)
        &&& distinct_ids(self.types)
        &&& distinct_ids(self.products)
        &&& distinct_ids(self.batches)
        &&& distinct_keys(self.sections)
        &&& distinct_keys_per_owner(self.types)
        &&& distinct_keys_per_owner(self.products)
        &&& owners_exist(self.types, self.sections)
        &&& owners_exist(self.products, self.types)
        &&& owners_exist(self.batches, self.products)
    }

    /// The constraints of the catalog: the tables are well linked, and
    /// every product name is the upper-case form of some text.
    pub open spec fn wf(self) -> bool {
        &&& self.well_linked()
        &&& forall|i: int|
            0 <= i < self.products.len() ==> is_upper_form((#[trigger] self.products[i]).name)
    }

    /// What tables must meet to be taken as a catalog: they are well linked,
    /// and every product name is its own upper-case form.
    pub open spec fn restorable(self) -> bool {
        &&& self.well_linked()
        &&& forall|i: int|
            0 <= i < self.products.len() ==> uppercase_of((#[trigger] self.products[i]).name)
                == self.products[i].name
    }

    /// No shelf holds more than its batch has in total.
    pub open spec fn stock_in_bounds(self) -> bool {
        forall|i: int|
            0 <= i < self.batches.len() ==> (#[trigger] self.batches[i]).shelf_quantity
                <= self.batches[i].total_quantity
    }

    /// Creating a section named `name`.
    pub open spec fn create_section(self, name: Seq<char>) -> Result<CatalogView, StoreError> {
        if has_key(self.sections, name) {
            Err(StoreError::DuplicateKey)
        } else if next_id(self.sections) > i64::MAX {
            Err(StoreError::StorageFailure)
        } else {
            Ok(
                CatalogView {
                    sections: self.sections.push(
                        SectionView { id: next_id(self.sections) as i64, name },
                    ),
                    ..self
                },
            )
        }
    }

    /// Creating a type named `name` in the section `section_id`.
    pub open spec fn create_type(self, name: Seq<char>, section_id: i64) -> Result<
        CatalogView,
        StoreError,
    > {
        if !has_id(self.sections, section_id) {
            Err(StoreError::NotFound)
        } else if has_key_under(self.types, name, section_id) {
            Err(StoreError::DuplicateKey)
        } else if next_id(self.types) > i64::MAX {
            Err(StoreError::StorageFailure)
        } else {
            Ok(
                CatalogView {
                    types: self.types.push(
                        TypeView { id: next_id(self.types) as i64, name, section_id },
                    ),
                    ..self
                },
            )
        }
    }

    /// Creating a product under the type `type_id`; it is stored under the
    /// upper-case form of `name`.
    pub open spec fn create_product(self, name: Seq<char>, type_id: i64) -> Result<
        CatalogView,
        StoreError,
    > {
        if !has_id(self.types, type_id) {
            Err(StoreError::NotFound)
        } else if has_key_under(self.products, uppercase_of(name), type_id) {
            Err(StoreError::DuplicateKey)
        } else if next_id(self.products) > i64::MAX {
            Err(StoreError::StorageFailure)
        } else {
            Ok(
                CatalogView {
                    products: self.products.push(
                        ProductView {
                            id: next_id(self.products) as i64,
                            name: uppercase_of(name),
                            type_id,
                        },
                    ),
                    ..self
                },
            )
        }
    }

    /// Creating a batch of the product `product_id`.
    pub open spec fn create_batch(
        self,
        product_id: i64,
        expiry_date: Seq<char>,
        total_quantity: u32,
        shelf_quantity: u32,
    ) -> Result<CatalogView, StoreError> {
        if shelf_quantity > total_quantity {
            Err(StoreError::ExceedsTotalStock)
        } else {
            self.insert_batch(product_id, expiry_date, total_quantity, shelf_quantity)
        }
    }

    /// Storing a batch of the product `product_id` with the quantities as
    /// they are given.
    pub open spec fn insert_batch(
        self,
        product_id: i64,
        expiry_date: Seq<char>,
        total_quantity: u32,
        shelf_quantity: u32,
    ) -> Result<CatalogView, StoreError> {
        if !has_id(self.products, product_id) {
            Err(StoreError::NotFound)
        } else if next_id(self.batches) > i64::MAX {
            Err(StoreError::StorageFailure)
        } else {
            Ok(
                CatalogView {
                    batches: self.batches.push(
                        BatchView {
                            id: next_id(self.batches) as i64,
                            product_id,
                            expiry_date,
                            total_quantity,
                            shelf_quantity,
                        },
                    ),
                    ..self
                },
            )
        }
    }

    /// The catalog without the types, products and batches whose parent is
    /// gone.
    pub open spec fn without_orphans(self) -> CatalogView {
        let types = self.types.filter(owner_among(self.sections));
        let products = self.products.filter(owner_among(types));
        let batches = self.batches.filter(owner_among(products));
        CatalogView { sections: self.sections, types, products, batches }
    }

    /// Deleting the section `id` with all that belongs to it.
    pub open spec fn delete_section(self, id: i64) -> CatalogView {
        CatalogView { sections: self.sections.filter(not_id(id)), ..self }.without_orphans()
    }

    /// Deleting the type `id` with all that belongs to it.
    pub open spec fn delete_type(self, id: i64) -> CatalogView {
        CatalogView { types: self.types.filter(not_id(id)), ..self }.without_orphans()
    }

    /// Deleting the product `id` with its batches.
    pub open spec fn delete_product(self, id: i64) -> CatalogView {
        CatalogView { products: self.products.filter(not_id(id)), ..self }.without_orphans()
    }

    /// Deleting the batch `id`.
    pub open spec fn delete_batch(self, id: i64) -> CatalogView {
        CatalogView { batches: self.batches.filter(not_id(id)), ..self }
    }

    /// The sections by name.
    pub open spec fn list_sections(self) -> Seq<SectionView> {
        sorted(self.sections)
    }

    /// The types of a section by name.
    pub open spec fn list_types(self, section_id: i64) -> Seq<TypeView> {
        listed_under(self.types, section_id)
    }

    /// The products of a type by name.
    pub open spec fn list_products(self, type_id: i64) -> Seq<ProductView> {
        listed_under(self.products, type_id)
    }

    /// The batches of a product by expiry date.
    pub open spec fn list_batches(self, product_id: i64) -> Seq<BatchView> {
        listed_under(self.batches, product_id)
    }

    /// The products whose name contains the upper-case form of `term`, by
    /// name.
    pub open spec fn search_products(self, term: Seq<char>) -> Seq<ProductView> {
        sorted(self.products.filter(name_contains(uppercase_of(term))))
    }
}

/// A catalog of sections, types, products and batches.
pub struct Catalog {
    pub(crate) sections: Vec<Section>,
    pub(crate) types: Vec<Type>,
    pub(crate) products: Vec<Product>,
    pub(crate) batches: Vec<Batch>,
}

impl View for Catalog {
    type V = CatalogView;

    open(crate) spec fn view(&self) -> CatalogView {
        CatalogView {
            sections: views(self.sections@),
            types: views(self.types@),
            products: views(self.products@),
            batches: views(self.batches@),
        }
    }
}

/// A section cannot be created twice: once a section of a name has been
/// created, creating a section of that name fails with `DuplicateKey`.
pub proof fn law_section_created_once(c: CatalogView, name: Seq<char>)
    requires
        c.create_section(name) is Ok,
    ensures
        c.create_section(name)->Ok_0.create_section(name) == Err::<CatalogView, StoreError>(
            StoreError::DuplicateKey,
        ),
{
    let d = c.create_section(name)->Ok_0;
    assert(d.sections[c.sections.len() as int].name == name);
}

/// A type cannot be created twice in one section.
pub proof fn law_type_created_once(c: CatalogView, name: Seq<char>, section_id: i64)
    requires
        c.create_type(name, section_id) is Ok,
    ensures
        c.create_type(name, section_id)->Ok_0.create_type(name, section_id) == Err::<
            CatalogView,
            StoreError,
        >(StoreError::DuplicateKey),
{
    let d = c.create_type(name, section_id)->Ok_0;
    assert(d.types[c.types.len() as int].name == name);
}

/// A product cannot be created twice under one type.
pub proof fn law_product_created_once(c: CatalogView, name: Seq<char>, type_id: i64)
    requires
        c.create_product(name, type_id) is Ok,
    ensures
        c.create_product(name, type_id)->Ok_0.create_product(name, type_id) == Err::<
            CatalogView,
            StoreError,
        >(StoreError::DuplicateKey),
{
    let d = c.create_product(name, type_id)->Ok_0;
    assert(d.products[c.products.len() as int].name == uppercase_of(name));
}

/// A new section leaves the catalog well formed.
pub proof fn lemma_create_section_wf(c: CatalogView, name: Seq<char>)
    requires
        c.wf(),
        c.create_section(name) is Ok,
    ensures
        c.create_section(name)->Ok_0.wf(),
{
    let x = SectionView { id: next_id(c.sections) as i64, name };
    lemma_next_id_is_new(c.sections);
    lemma_push_distinct_ids(c.sections, x);
    lemma_push_distinct_keys(c.sections, x);
    lemma_owners_exist_more_parents(c.types, c.sections, x);
}

/// A new type leaves the catalog well formed.
pub proof fn lemma_create_type_wf(c: CatalogView, name: Seq<char>, section_id: i64)
    requires
        c.wf(),
        c.create_type(name, section_id) is Ok,
    ensures
        c.create_type(name, section_id)->Ok_0.wf(),
{
    let x = TypeView { id: next_id(c.types) as i64, name, section_id };
    lemma_next_id_is_new(c.types);
    lemma_push_distinct_ids(c.types, x);
    lemma_push_distinct_keys_per_owner(c.types, x);
    lemma_owners_exist_more_parents(c.products, c.types, x);
    lemma_owners_exist_push(c.types, c.sections, x);
}

/// A new product leaves the catalog well formed.
pub proof fn lemma_create_product_wf(c: CatalogView, name: Seq<char>, type_id: i64)
    requires
        c.wf(),
        c.create_product(name, type_id) is Ok,
    ensures
        c.create_product(name, type_id)->Ok_0.wf(),
{
    let d = c.create_product(name, type_id)->Ok_0;
    let x = ProductView { id: next_id(c.products) as i64, name: uppercase_of(name), type_id };
    lemma_next_id_is_new(c.products);
    lemma_push_distinct_ids(c.products, x);
    lemma_push_distinct_keys_per_owner(c.products, x);
    lemma_owners_exist_more_parents(c.batches, c.products, x);
    lemma_owners_exist_push(c.products, c.types, x);
    assert(is_upper_form(x.name));
    assert forall|i: int| 0 <= i < d.products.len() implies is_upper_form(
        (#[trigger] d.products[i]).name,
    ) by {
        if i < c.products.len() {
            assert(is_upper_form(c.products[i].name));
        }
    }
}

/// A new batch leaves the catalog well formed, and every shelf within its
/// total if its own shelf is.
pub proof fn lemma_insert_batch_wf(
    c: CatalogView,
    product_id: i64,
    expiry_date: Seq<char>,
    total_quantity: u32,
    shelf_quantity: u32,
)
    requires
        c.wf(),
        c.insert_batch(product_id, expiry_date, total_quantity, shelf_quantity) is Ok,
    ensures
        c.insert_batch(product_id, expiry_date, total_quantity, shelf_quantity)->Ok_0.wf(),
        c.stock_in_bounds() && shelf_quantity <= total_quantity ==> c.insert_batch(
            product_id,
            expiry_date,
            total_quantity,
            shelf_quantity,
        )->Ok_0.stock_in_bounds(),
{
    let d = c.insert_batch(product_id, expiry_date, total_quantity, shelf_quantity)->Ok_0;
    let x = BatchView {
        id: next_id(c.batches) as i64,
        product_id,
        expiry_date,
        total_quantity,
        shelf_quantity,
    };
    lemma_next_id_is_new(c.batches);
    lemma_push_distinct_ids(c.batches, x);
    lemma_owners_exist_push(c.batches, c.products, x);
    if c.stock_in_bounds() && shelf_quantity <= total_quantity {
        assert forall|i: int| 0 <= i < d.batches.len() implies (
        #[trigger] d.batches[i]).shelf_quantity <= d.batches[i].total_quantity by {
            if i < c.batches.len() {
                assert(c.batches[i].shelf_quantity <= c.batches[i].total_quantity);
            }
        }
    }
}

/// A well-formed catalog has no record without a parent.
pub proof fn lemma_no_orphans(c: CatalogView)
    requires
        c.wf(),
    ensures
        c.without_orphans() == c,
{
    assert forall|i: int| 0 <= i < c.types.len() implies owner_among::<TypeView, SectionView>(
        c.sections,
    )(#[trigger] c.types[i]) by {}
    lemma_filter_all(c.types, owner_among(c.sections));
    assert forall|i: int| 0 <= i < c.products.len() implies owner_among::<ProductView, TypeView>(
        c.types,
    )(#[trigger] c.products[i]) by {}
    lemma_filter_all(c.products, owner_among(c.types));
    assert forall|i: int| 0 <= i < c.batches.len() implies owner_among::<BatchView, ProductView>(
        c.products,
    )(#[trigger] c.batches[i]) by {}
    lemma_filter_all(c.batches, owner_among(c.products));
}

/// Deleting what is not there changes nothing, on every level.
pub proof fn law_delete_missing(c: CatalogView, id: i64)
    requires
        c.wf(),
    ensures
        !has_id(c.sections, id) ==> c.delete_section(id) == c,
        !has_id(c.types, id) ==> c.delete_type(id) == c,
        !has_id(c.products, id) ==> c.delete_product(id) == c,
        !has_id(c.batches, id) ==> c.delete_batch(id) == c,
{
    lemma_no_orphans(c);
    if !has_id(c.sections, id) {
        assert forall|i: int| 0 <= i < c.sections.len() implies not_id::<SectionView>(id)(
            #[trigger] c.sections[i],
        ) by {}
        lemma_filter_all(c.sections, not_id(id));
    }
    if !has_id(c.types, id) {
        assert forall|i: int| 0 <= i < c.types.len() implies not_id::<TypeView>(id)(
            #[trigger] c.types[i],
        ) by {}
        lemma_filter_all(c.types, not_id(id));
    }
    if !has_id(c.products, id) {
        assert forall|i: int| 0 <= i < c.products.len() implies not_id::<ProductView>(id)(
            #[trigger] c.products[i],
        ) by {}
        lemma_filter_all(c.products, not_id(id));
    }
    if !has_id(c.batches, id) {
        assert forall|i: int| 0 <= i < c.batches.len() implies not_id::<BatchView>(id)(
            #[trigger] c.batches[i],
        ) by {}
        lemma_filter_all(c.batches, not_id(id));
    }
}

/// After a section is deleted, the section is gone, and so is every type
/// that was in it, every product of such a type and every batch of such a
/// product; all other records stay.
pub proof fn law_delete_section_cascades(c: CatalogView, id: i64)
    requires
        c.wf(),
    ensures
        !has_id(c.delete_section(id).sections, id),
        forall|s: SectionView|
            c.delete_section(id).sections.contains(s) <==> c.sections.contains(s) && s.id != id,
        forall|t: TypeView|
            c.delete_section(id).types.contains(t) <==> c.types.contains(t) && t.section_id != id,
        forall|p: ProductView|
            c.delete_section(id).products.contains(p) <==> c.products.contains(p) && has_id(
                c.delete_section(id).types,
                p.type_id,
            ),
        forall|b: BatchView|
            c.delete_section(id).batches.contains(b) <==> c.batches.contains(b) && has_id(
                c.delete_section(id).products,
                b.product_id,
            ),
{
    let d = c.delete_section(id);
    assert forall|s: SectionView|
        d.sections.contains(s) <==> c.sections.contains(s) && s.id != id by {
        lemma_filter_contains(c.sections, not_id(id), s);
    }
    if has_id(d.sections, id) {
        let i = choose|i: int| 0 <= i < d.sections.len() && (#[trigger] d.sections[i]).ident() == id;
        assert(d.sections.contains(d.sections[i]));
    }
    assert forall|t: TypeView|
        d.types.contains(t) <==> c.types.contains(t) && t.section_id != id by {
        lemma_filter_contains(c.types, owner_among(d.sections), t);
        if c.types.contains(t) {
            let k = choose|k: int| 0 <= k < c.types.len() && c.types[k] == t;
            assert(has_id(c.sections, c.types[k].section_id));
            let j = choose|j: int|
                0 <= j < c.sections.len() && (#[trigger] c.sections[j]).ident() == t.section_id;
            lemma_filter_contains(c.sections, not_id(id), c.sections[j]);
            assert(c.sections.contains(c.sections[j]));
            if t.section_id != id {
                let m = choose|m: int| 0 <= m < d.sections.len() && d.sections[m] == c.sections[j];
                assert(d.sections[m].ident() == t.section_id);
            } else if has_id(d.sections, t.section_id) {
                let m = choose|m: int|
                    0 <= m < d.sections.len() && (#[trigger] d.sections[m]).ident() == id;
                assert(d.sections.contains(d.sections[m]));
            }
        }
    }
    assert forall|p: ProductView|
        d.products.contains(p) <==> c.products.contains(p) && has_id(d.types, p.type_id) by {
        lemma_filter_contains(c.products, owner_among(d.types), p);
    }
    assert forall|b: BatchView|
        d.batches.contains(b) <==> c.batches.contains(b) && has_id(d.products, b.product_id) by {
        lemma_filter_contains(c.batches, owner_among(d.products), b);
    }
}

/// The catalog stays well formed when a record is removed from one table
/// and the records left without a parent are removed with it.
pub proof fn lemma_without_orphans_wf(c: CatalogView, d: CatalogView)
    requires
        c.wf(),
        d.sections == c.sections || exists|p: spec_fn(SectionView) -> bool| d.sections == c.sections.filter(p),
        d.types == c.types || exists|p: spec_fn(TypeView) -> bool| d.types == c.types.filter(p),
        d.products == c.products || exists|p: spec_fn(ProductView) -> bool| d.products == c.products.filter(p),
        d.batches == c.batches || exists|p: spec_fn(BatchView) -> bool| d.batches == c.batches.filter(p),
    ensures
        d.without_orphans().wf(),
{
    let e = d.without_orphans();
    // each table of `d` is a selection of the table of `c`
    if d.sections != c.sections {
        let p = choose|p: spec_fn(SectionView) -> bool| d.sections == c.sections.filter(p);
        lemma_filter_keeps_distinct_keys(c.sections, p);
    }
    if d.types != c.types {
        let p = choose|p: spec_fn(TypeView) -> bool| d.types == c.types.filter(p);
        lemma_filter_keeps_distinct(c.types, p);
    }
    if d.products != c.products {
        let p = choose|p: spec_fn(ProductView) -> bool| d.products == c.products.filter(p);
        lemma_filter_keeps_distinct(c.products, p);
        assert forall|i: int| 0 <= i < d.products.len() implies is_upper_form(
            (#[trigger] d.products[i]).name,
        ) by {
            lemma_filter_is_member(c.products, p, i);
        }
    }
    if d.batches != c.batches {
        let p = choose|p: spec_fn(BatchView) -> bool| d.batches == c.batches.filter(p);
        lemma_filter_keeps_distinct(c.batches, p);
    }
    // and each table of `e` is a selection of the table of `d`
    lemma_filter_keeps_distinct(d.types, owner_among(d.sections));
    lemma_filter_keeps_distinct(d.products, owner_among(e.types));
    lemma_filter_keeps_distinct(d.batches, owner_among(e.products));
    assert forall|i: int| 0 <= i < e.types.len() implies has_id(
        e.sections,
        (#[trigger] e.types[i]).section_id,
    ) by {
        lemma_filter_is_member(d.types, owner_among(d.sections), i);
    }
    assert forall|i: int| 0 <= i < e.products.len() implies has_id(
        e.types,
        (#[trigger] e.products[i]).type_id,
    ) && is_upper_form(e.products[i].name) by {
        lemma_filter_is_member(d.products, owner_among(e.types), i);
    }
    assert forall|i: int| 0 <= i < e.batches.len() implies has_id(
        e.products,
        (#[trigger] e.batches[i]).product_id,
    ) by {
        lemma_filter_is_member(d.batches, owner_among(e.products), i);
    }
}

impl Catalog {
    /// A catalog without any record.
    pub fn new() -> (c: Catalog)
        ensures
            c@ == CatalogView::empty(),
            c@.wf(),
    {
        let c = Catalog {
            sections: Vec::new(),
            types: Vec::new(),
            products: Vec::new(),
            batches: Vec::new(),
        };
        assert(c@.sections =~= Seq::empty());
        assert(c@.types =~= Seq::empty());
        assert(c@.products =~= Seq::empty());
        assert(c@.batches =~= Seq::empty());
        c
    }

    /// The catalog that holds the given tables. Fails with `StorageFailure`
    /// if the tables are not well linked or a product name is not in upper
    /// case.
    pub fn from_tables(
        sections: Vec<Section>,
        types: Vec<Type>,
        products: Vec<Product>,
        batches: Vec<Batch>,
    ) -> (r: Result<Catalog, StoreError>)
        ensures
            match r {
                Ok(c) => c@.restorable() && c@.wf() && c@ == (CatalogView {
                    sections: views(sections@),
                    types: views(types@),
                    products: views(products@),
                    batches: views(batches@),
                }),
                Err(e) => e == StoreError::StorageFailure && !(CatalogView {
                    sections: views(sections@),
                    types: views(types@),
                    products: views(products@),
                    batches: views(batches@),
                }).restorable(),
            },
    {
        let linked = ids_are_distinct(&sections) && ids_are_distinct(&types) && ids_are_distinct(
            &products,
        ) && ids_are_distinct(&batches) && keys_are_distinct(&sections)
            && keys_are_distinct_per_owner(&types) && keys_are_distinct_per_owner(&products)
            && owners_are_present(&types, &sections) && owners_are_present(&products, &types)
            && owners_are_present(&batches, &products);
        if !linked {
            return Err(StoreError::StorageFailure);
        }
        let mut i: usize = 0;
        while i < products.len()
            invariant
                i <= products.len(),
                forall|k: int|
                    0 <= k < i ==> uppercase_of((#[trigger] views(products@)[k]).name) == views(
                        products@,
                    )[k].name,
            decreases products.len() - i,
        {
            let upper = to_upper(products[i].name.as_str());
            if upper != products[i].name {
                assert(uppercase_of(views(products@)[i as int].name) != views(
                    products@,
                )[i as int].name);
                return Err(StoreError::StorageFailure);
            }
            i += 1;
        }
        Ok(Catalog { sections, types, products, batches })
    }

    /// The sections in the order in which they were created.
    pub fn sections(&self) -> (r: &Vec<Section>)
        ensures
            views(r@) == self@.sections,
    {
        &self.sections
    }

    /// The types in the order in which they were created.
    pub fn types(&self) -> (r: &Vec<Type>)
        ensures
            views(r@) == self@.types,
    {
        &self.types
    }

    /// The products in the order in which they were created.
    pub fn products(&self) -> (r: &Vec<Product>)
        ensures
            views(r@) == self@.products,
    {
        &self.products
    }

    /// The batches in the order in which they were created.
    pub fn batches(&self) -> (r: &Vec<Batch>)
        ensures
            views(r@) == self@.batches,
    {
        &self.batches
    }

    /// Creates a section and returns its identifier. Fails with
    /// `DuplicateKey` if a section of that name exists, with
    /// `StorageFailure` if no identifier is left; a failure changes nothing.
    pub fn create_section(&mut self, name: String) -> (r: Result<i64, StoreError>)
        requires
            old(self)@.wf(),
        ensures
            final(self)@.wf(),
            final(self)@ == state_after(old(self)@, old(self)@.create_section(name@)),
            match r {
                Ok(id) => old(self)@.create_section(name@) is Ok && id == next_id(
                    old(self)@.sections,
                ),
                Err(e) => old(self)@.create_section(name@) == Err::<CatalogView, StoreError>(e),
            },
            has_key(old(self)@.sections, name@) ==> r == Err::<i64, StoreError>(
                StoreError::DuplicateKey,
            ) && final(self)@ == old(self)@,
            old(self)@.stock_in_bounds() ==> final(self)@.stock_in_bounds(),
    {
        if find_key(&self.sections, &name).is_some() {
            return Err(StoreError::DuplicateKey);
        }
        match fresh_id(&self.sections) {
            None => Err(StoreError::StorageFailure),
            Some(id) => {
                let row = Section { id, name };
                proof {
                    lemma_create_section_wf(self@, row@.name);
                    lemma_views_push(self.sections@, row);
                }
                self.sections.push(row);
                Ok(id)
            },
        }
    }

    /// Creates a type in a section and returns its identifier. Fails with
    /// `NotFound` if the section does not exist, with `DuplicateKey` if the
    /// section has a type of that name, with `StorageFailure` if no
    /// identifier is left; a failure changes nothing.
    pub fn create_type(&mut self, name: String, section_id: i64) -> (r: Result<i64, StoreError>)
        requires
            old(self)@.wf(),
        ensures
            final(self)@.wf(),
            final(self)@ == state_after(old(self)@, old(self)@.create_type(name@, section_id)),
            match r {
                Ok(id) => old(self)@.create_type(name@, section_id) is Ok && id == next_id(
                    old(self)@.types,
                ),
                Err(e) => old(self)@.create_type(name@, section_id) == Err::<
                    CatalogView,
                    StoreError,
                >(e),
            },
            has_key_under(old(self)@.types, name@, section_id) ==> r == Err::<i64, StoreError>(
                StoreError::DuplicateKey,
            ) && final(self)@ == old(self)@,
            old(self)@.stock_in_bounds() ==> final(self)@.stock_in_bounds(),
    {
        if find_id(&self.sections, section_id).is_none() {
            return Err(StoreError::NotFound);
        }
        if find_key_under(&self.types, &name, section_id).is_some() {
            return Err(StoreError::DuplicateKey);
        }
        match fresh_id(&self.types) {
            None => Err(StoreError::StorageFailure),
            Some(id) => {
                let row = Type { id, name, section_id };
                proof {
                    lemma_create_type_wf(self@, row@.name, section_id);
                    lemma_views_push(self.types@, row);
                }
                self.types.push(row);
                Ok(id)
            },
        }
    }

    /// Creates a product under a type, named by the upper-case form of
    /// `name`, and returns its identifier. Fails with `NotFound` if the type
    /// does not exist, with `DuplicateKey` if the type has a product of that
    /// upper-case name, with `StorageFailure` if no identifier is left; a
    /// failure changes nothing.
    pub fn create_product(&mut self, name: String, type_id: i64) -> (r: Result<i64, StoreError>)
        requires
            old(self)@.wf(),
        ensures
            final(self)@.wf(),
            final(self)@ == state_after(old(self)@, old(self)@.create_product(name@, type_id)),
            match r {
                Ok(id) => old(self)@.create_product(name@, type_id) is Ok && id == next_id(
                    old(self)@.products,
                ),
                Err(e) => old(self)@.create_product(name@, type_id) == Err::<
                    CatalogView,
                    StoreError,
                >(e),
            },
            has_key_under(old(self)@.products, uppercase_of(name@), type_id) ==> r == Err::<
                i64,
                StoreError,
            >(StoreError::DuplicateKey) && final(self)@ == old(self)@,
            old(self)@.stock_in_bounds() ==> final(self)@.stock_in_bounds(),
    {
        if find_id(&self.types, type_id).is_none() {
            return Err(StoreError::NotFound);
        }
        let upper = to_upper(name.as_str());
        if find_key_under(&self.products, &upper, type_id).is_some() {
            return Err(StoreError::DuplicateKey);
        }
        match fresh_id(&self.products) {
            None => Err(StoreError::StorageFailure),
            Some(id) => {
                let row = Product { id, name: upper, type_id };
                proof {
                    lemma_create_product_wf(self@, name@, type_id);
                    lemma_views_push(self.products@, row);
                }
                self.products.push(row);
                Ok(id)
            },
        }
    }

    /// Creates a batch of a product and returns its identifier. Fails with
    /// `ExceedsTotalStock` if the shelf quantity is larger than the total,
    /// with `NotFound` if the product does not exist, with `StorageFailure`
    /// if no identifier is left; a failure changes nothing.
    pub fn create_batch(
        &mut self,
        product_id: i64,
        expiry_date: String,
        total_quantity: u32,
        shelf_quantity: u32,
    ) -> (r: Result<i64, StoreError>)
        requires
            old(self)@.wf(),
        ensures
            final(self)@.wf(),
            final(self)@ == state_after(
                old(self)@,
                old(self)@.create_batch(product_id, expiry_date@, total_quantity, shelf_quantity),
            ),
            match r {
                Ok(id) => old(self)@.create_batch(
                    product_id,
                    expiry_date@,
                    total_quantity,
                    shelf_quantity,
                ) is Ok && id == next_id(old(self)@.batches),
                Err(e) => old(self)@.create_batch(
                    product_id,
                    expiry_date@,
                    total_quantity,
                    shelf_quantity,
                ) == Err::<CatalogView, StoreError>(e),
            },
            old(self)@.stock_in_bounds() ==> final(self)@.stock_in_bounds(),
    {
        if shelf_quantity > total_quantity {
            return Err(StoreError::ExceedsTotalStock);
        }
        self.insert_batch(product_id, expiry_date, total_quantity, shelf_quantity)
    }

    /// Stores a batch of a product with the quantities as they are given,
    /// and returns its identifier. Fails with `NotFound` if the product does
    /// not exist and with `StorageFailure` if no identifier is left; a
    /// failure changes nothing.
    pub(crate) fn insert_batch(
        &mut self,
        product_id: i64,
        expiry_date: String,
        total_quantity: u32,
        shelf_quantity: u32,
    ) -> (r: Result<i64, StoreError>)
        requires
            old(self)@.wf(),
        ensures
            final(self)@.wf(),
            final(self)@ == state_after(
                old(self)@,
                old(self)@.insert_batch(product_id, expiry_date@, total_quantity, shelf_quantity),
            ),
            match r {
                Ok(id) => old(self)@.insert_batch(
                    product_id,
                    expiry_date@,
                    total_quantity,
                    shelf_quantity,
                ) is Ok && id == next_id(old(self)@.batches),
                Err(e) => old(self)@.insert_batch(
                    product_id,
                    expiry_date@,
                    total_quantity,
                    shelf_quantity,
                ) == Err::<CatalogView, StoreError>(e),
            },
            old(self)@.stock_in_bounds() && shelf_quantity <= total_quantity
                ==> final(self)@.stock_in_bounds(),
    {
        if find_id(&self.products, product_id).is_none() {
            return Err(StoreError::NotFound);
        }
        match fresh_id(&self.batches) {
            None => Err(StoreError::StorageFailure),
            Some(id) => {
                let row = Batch { id, product_id, expiry_date, total_quantity, shelf_quantity };
                proof {
                    lemma_insert_batch_wf(
                        self@,
                        product_id,
                        row@.expiry_date,
                        total_quantity,
                        shelf_quantity,
                    );
                    lemma_views_push(self.batches@, row);
                }
                self.batches.push(row);
                Ok(id)
            },
        }
    }

    /// The sections, by name.
    pub fn list_sections(&self) -> (r: Vec<Section>)
        ensures
            views(r@) == self@.list_sections(),
    {
        list_all(&self.sections)
    }

    /// The types of a section, by name; none if there is no such section.
    pub fn list_types(&self, section_id: i64) -> (r: Vec<Type>)
        ensures
            views(r@) == self@.list_types(section_id),
    {
        list_owned_by(&self.types, section_id)
    }

    /// The products of a type, by name; none if there is no such type.
    pub fn list_products(&self, type_id: i64) -> (r: Vec<Product>)
        ensures
            views(r@) == self@.list_products(type_id),
    {
        list_owned_by(&self.products, type_id)
    }

    /// The batches of a product, by expiry date; none if there is no such
    /// product.
    pub fn list_batches(&self, product_id: i64) -> (r: Vec<Batch>)
        ensures
            views(r@) == self@.list_batches(product_id),
    {
        list_owned_by(&self.batches, product_id)
    }

    /// Deletes a section with its types, their products and their batches.
    /// Where there is no such section, nothing changes.
    pub fn delete_section(&mut self, id: i64)
        requires
            old(self)@.wf(),
        ensures
            final(self)@.wf(),
            final(self)@ == old(self)@.delete_section(id),
            old(self)@.stock_in_bounds() ==> final(self)@.stock_in_bounds(),
    {
        let sections = remove_id(&self.sections, id);
        let types = keep_owned_among(&self.types, &sections);
        let products = keep_owned_among(&self.products, &types);
        let batches = keep_owned_among(&self.batches, &products);
        proof {
            let c = self@;
            let d = CatalogView { sections: c.sections.filter(not_id(id)), ..c };
            lemma_without_orphans_wf(c, d);
            lemma_selection_in_bounds(c.batches, owner_among(views(products@)));
        }
        self.sections = sections;
        self.types = types;
        self.products = products;
        self.batches = batches;
    }

    /// Deletes a type with its products and their batches. Where there is no
    /// such type, nothing changes.
    pub fn delete_type(&mut self, id: i64)
        requires
            old(self)@.wf(),
        ensures
            final(self)@.wf(),
            final(self)@ == old(self)@.delete_type(id),
            old(self)@.stock_in_bounds() ==> final(self)@.stock_in_bounds(),
    {
        let types = remove_id(&self.types, id);
        let products = keep_owned_among(&self.products, &types);
        let batches = keep_owned_among(&self.batches, &products);
        proof {
            let c = self@;
            let d = CatalogView { types: c.types.filter(not_id(id)), ..c };
            lemma_without_orphans_wf(c, d);
            assert forall|i: int| 0 <= i < d.types.len() implies owner_among::<
                TypeView,
                SectionView,
            >(c.sections)(#[trigger] d.types[i]) by {
                lemma_filter_is_member(c.types, not_id(id), i);
            }
            lemma_filter_all(d.types, owner_among(c.sections));
            lemma_selection_in_bounds(c.batches, owner_among(views(products@)));
        }
        self.types = types;
        self.products = products;
        self.batches = batches;
    }

    /// Deletes a product with its batches. Where there is no such product,
    /// nothing changes.
    pub fn delete_product(&mut self, id: i64)
        requires
            old(self)@.wf(),
        ensures
            final(self)@.wf(),
            final(self)@ == old(self)@.delete_product(id),
            old(self)@.stock_in_bounds() ==> final(self)@.stock_in_bounds(),
    {
        let products = remove_id(&self.products, id);
        let batches = keep_owned_among(&self.batches, &products);
        proof {
            let c = self@;
            let d = CatalogView { products: c.products.filter(not_id(id)), ..c };
            lemma_without_orphans_wf(c, d);
            lemma_filter_all(c.types, owner_among(c.sections));
            assert forall|i: int| 0 <= i < d.products.len() implies owner_among::<
                ProductView,
                TypeView,
            >(c.types)(#[trigger] d.products[i]) by {
                lemma_filter_is_member(c.products, not_id(id), i);
            }
            lemma_filter_all(d.products, owner_among(c.types));
            lemma_selection_in_bounds(c.batches, owner_among(views(products@)));
        }
        self.products = products;
        self.batches = batches;
    }

    /// Deletes a batch. Where there is no such batch, nothing changes.
    pub fn delete_batch(&mut self, id: i64)
        requires
            old(self)@.wf(),
        ensures
            final(self)@.wf(),
            final(self)@ == old(self)@.delete_batch(id),
            old(self)@.stock_in_bounds() ==> final(self)@.stock_in_bounds(),
    {
        let batches = remove_id(&self.batches, id);
        proof {
            let c = self@;
            lemma_filter_keeps_distinct(c.batches, not_id(id));
            assert forall|i: int| 0 <= i < views(batches@).len() implies has_id(
                c.products,
                (#[trigger] views(batches@)[i]).product_id,
            ) by {
                lemma_filter_is_member(c.batches, not_id(id), i);
            }
            lemma_selection_in_bounds(c.batches, not_id(id));
        }
        self.batches = batches;
    }

    /// The products whose name contains `term`, whatever the case of its
    /// letters, by name.
    pub fn search_products(&self, term: &str) -> (r: Vec<Product>)
        ensures
            views(r@) == self@.search_products(term@),
    {
        let upper = to_upper(term);
        let needle = chars_of(upper.as_str());
        let mut out: Vec<Product> = Vec::new();
        let mut i: usize = 0;
        proof {
            reveal(Seq::filter);
            assert(views(self.products@).take(0) =~= Seq::<ProductView>::empty());
            assert(views(out@) =~= Seq::<ProductView>::empty());
        }
        while i < self.products.len()
            invariant
                i <= self.products.len(),
                needle@ == uppercase_of(term@),
                views(out@) == sorted(
                    views(self.products@).take(i as int).filter(name_contains(needle@)),
                ),
            decreases self.products.len() - i,
        {
            proof {
                let v = views(self.products@);
                assert(v.take(i + 1) =~= v.take(i as int).push(v[i as int]));
                v.take(i as int).lemma_filter_push(v[i as int], name_contains(needle@));
                crate::order::lemma_sorted_push(
                    v.take(i as int).filter(name_contains(needle@)),
                    v[i as int],
                );
            }
            let hay = chars_of(self.products[i].name.as_str());
            if contains(&hay, &needle) {
                crate::order::place_row(&mut out, self.products[i].clone());
            }
            i += 1;
        }
        assert(views(self.products@).take(self.products.len() as int) =~= views(self.products@));
        out
    }
}

/// A selection of batches keeps every shelf within its total.
pub proof fn lemma_selection_in_bounds(batches: Seq<BatchView>, p: spec_fn(BatchView) -> bool)
    ensures
        (forall|i: int|
            0 <= i < batches.len() ==> (#[trigger] batches[i]).shelf_quantity
                <= batches[i].total_quantity) ==> (forall|i: int|
            0 <= i < batches.filter(p).len() ==> (#[trigger] batches.filter(p)[i]).shelf_quantity
                <= batches.filter(p)[i].total_quantity),
{
    if forall|i: int|
        0 <= i < batches.len() ==> (#[trigger] batches[i]).shelf_quantity
            <= batches[i].total_quantity {
        assert forall|i: int| 0 <= i < batches.filter(p).len() implies (#[trigger] batches.filter(
            p,
        )[i]).shelf_quantity <= batches.filter(p)[i].total_quantity by {
            lemma_filter_is_member(batches, p, i);
        }
    }
}

} // verus!
