//! The records of the four catalog tables, their mathematical views, and the
//! reasons an operation can fail.
//!
//! A record holds its text as `String`; its view holds the same text as a
//! `Seq<char>`, so that contracts can speak about names character by character.

use vstd::prelude::*;

verus! {

/// Why a catalog operation did not succeed.
#[derive(Debug, Clone, Copy, PartialEq, Eq, Structural)]
pub enum StoreError {
    /// The id that the operation refers to is not in the catalog.
    NotFound,
    /// A record with the same key already exists under the same parent.
    DuplicateKey,
    /// A sale asked for more units than the shelf holds.
    InsufficientShelfStock,
    /// The shelf would hold more units than the batch has in total.
    ExceedsTotalStock,
    /// The text is not a table of this catalog: its header row is missing or
    /// does not name the section column.
    InvalidFormat,
    /// A data row of a table is malformed and was left out.
    RowSkipped,
    /// The store cannot take the record: no identifier is left for it, or the
    /// tables handed to it contradict one another.
    StorageFailure,
}

/// A top-level grouping of the catalog.
#[derive(Debug, PartialEq, Eq)]
pub struct Section {
    pub id: i64,
    pub name: String,
}

/// A grouping inside a section.
#[derive(Debug, PartialEq, Eq)]
pub struct Type {
    pub id: i64,
    pub name: String,
    pub section_id: i64,
}

/// An item under a type; its name is kept in upper case.
#[derive(Debug, PartialEq, Eq)]
pub struct Product {
    pub id: i64,
    pub name: String,
    pub type_id: i64,
}

/// A dated quantity of a product: `total_quantity` units exist, and
/// `shelf_quantity` of them are on the sales floor.
#[derive(Debug, PartialEq, Eq)]
pub struct Batch {
    pub id: i64,
    pub product_id: i64,
    pub expiry_date: String,
    pub total_quantity: u32,
    pub shelf_quantity: u32,
}

pub struct SectionView {
    pub id: i64,
    pub name: Seq<char>,
}

pub struct TypeView {
    pub id: i64,
    pub name: Seq<char>,
    pub section_id: i64,
}

pub struct ProductView {
    pub id: i64,
    pub name: Seq<char>,
    pub type_id: i64,
}

pub struct BatchView {
    pub id: i64,
    pub product_id: i64,
    pub expiry_date: Seq<char>,
    pub total_quantity: u32,
    pub shelf_quantity: u32,
}

impl View for Section {
    type V = SectionView;

    open spec fn view(&self) -> SectionView {
        SectionView { id: self.id, name: self.name@ }
    }
}

impl View for Type {
    type V = TypeView;

    open spec fn view(&self) -> TypeView {
        TypeView { id: self.id, name: self.name@, section_id: self.section_id }
    }
}

impl View for Product {
    type V = ProductView;

    open spec fn view(&self) -> ProductView {
        ProductView { id: self.id, name: self.name@, type_id: self.type_id }
    }
}

impl View for Batch {
    type V = BatchView;

    open spec fn view(&self) -> BatchView {
        BatchView {
            id: self.id,
            product_id: self.product_id,
            expiry_date: self.expiry_date@,
            total_quantity: self.total_quantity,
            shelf_quantity: self.shelf_quantity,
        }
    }
}

impl Clone for Section {
    fn clone(&self) -> (r: Self)
        ensures
            r == *self,
    {
        Section { id: self.id, name: self.name.clone() }
    }
}

impl Clone for Type {
    fn clone(&self) -> (r: Self)
        ensures
            r == *self,
    {
        Type { id: self.id, name: self.name.clone(), section_id: self.section_id }
    }
}

impl Clone for Product {
    fn clone(&self) -> (r: Self)
        ensures
            r == *self,
    {
        Product { id: self.id, name: self.name.clone(), type_id: self.type_id }
    }
}

impl Clone for Batch {
    fn clone(&self) -> (r: Self)
        ensures
            r == *self,
    {
        Batch {
            id: self.id,
            product_id: self.product_id,
            expiry_date: self.expiry_date.clone(),
            total_quantity: self.total_quantity,
            shelf_quantity: self.shelf_quantity,
        }
    }
}

/// What every record view has: an identifier, and a text by which records
/// of its table are listed (the name, or for a batch the expiry date).
pub trait Keyed {
    spec fn ident(&self) -> i64;

    spec fn sort_key(&self) -> Seq<char>;
}

/// A record view that belongs to a record of the table above its own.
pub trait Owned: Keyed {
    spec fn owner(&self) -> i64;
}

impl Keyed for SectionView {
    open spec fn ident(&self) -> i64 {
        self.id
    }

    open spec fn sort_key(&self) -> Seq<char> {
        self.name
    }
}

impl Keyed for TypeView {
    open spec fn ident(&self) -> i64 {
        self.id
    }

    open spec fn sort_key(&self) -> Seq<char> {
        self.name
    }
}

impl Keyed for ProductView {
    open spec fn ident(&self) -> i64 {
        self.id
    }

    open spec fn sort_key(&self) -> Seq<char> {
        self.name
    }
}

impl Keyed for BatchView {
    open spec fn ident(&self) -> i64 {
        self.id
    }

    open spec fn sort_key(&self) -> Seq<char> {
        self.expiry_date
    }
}

impl Owned for TypeView {
    open spec fn owner(&self) -> i64 {
        self.section_id
    }
}

impl Owned for ProductView {
    open spec fn owner(&self) -> i64 {
        self.type_id
    }
}

impl Owned for BatchView {
    open spec fn owner(&self) -> i64 {
        self.product_id
    }
}

/// A record of one of the tables.
pub trait Entry: View + Sized where Self::V: Keyed {
    /// The record's identifier.
    fn row_id(&self) -> (id: i64)
        ensures
            id == self@.ident(),
    ;

    /// The text by which the record is listed.
    fn row_key(&self) -> (k: &String)
        ensures
            k@ == self@.sort_key(),
    ;

    /// A copy of the record.
    fn duplicate(&self) -> (r: Self)
        ensures
            r@ == self@,
    ;
}

/// A record that belongs to a record of the table above its own.
pub trait Child: Entry where Self::V: Owned {
    /// The identifier of the record it belongs to.
    fn owner_id(&self) -> (id: i64)
        ensures
            id == self@.owner(),
    ;
}

impl Entry for Section {
    fn row_id(&self) -> (id: i64) {
        self.id
    }

    fn row_key(&self) -> (k: &String) {
        &self.name
    }

    fn duplicate(&self) -> (r: Self) {
        self.clone()
    }
}

impl Entry for Type {
    fn row_id(&self) -> (id: i64) {
        self.id
    }

    fn row_key(&self) -> (k: &String) {
        &self.name
    }

    fn duplicate(&self) -> (r: Self) {
        self.clone()
    }
}

impl Entry for Product {
    fn row_id(&self) -> (id: i64) {
        self.id
    }

    fn row_key(&self) -> (k: &String) {
        &self.name
    }

    fn duplicate(&self) -> (r: Self) {
        self.clone()
    }
}

impl Entry for Batch {
    fn row_id(&self) -> (id: i64) {
        self.id
    }

    fn row_key(&self) -> (k: &String) {
        &self.expiry_date
    }

    fn duplicate(&self) -> (r: Self) {
        self.clone()
    }
}

impl Child for Type {
    fn owner_id(&self) -> (id: i64) {
        self.section_id
    }
}

impl Child for Product {
    fn owner_id(&self) -> (id: i64) {
        self.type_id
    }
}

impl Child for Batch {
    fn owner_id(&self) -> (id: i64) {
        self.product_id
    }
}

/// The views of a sequence of records, in the same order.
pub open spec fn views<T: View>(s: Seq<T>) -> Seq<T::V> {
    Seq::new(s.len(), |i: int| s[i]@)
}

/// Appending a record appends its view.
pub proof fn lemma_views_push<T: View>(s: Seq<T>, x: T)
    ensures
        views(s.push(x)) == views(s).push(x@),
{
    assert(views(s.push(x)) =~= views(s).push(x@));
}

/// Inserting a record at a position inserts its view there.
pub proof fn lemma_views_insert<T: View>(s: Seq<T>, i: int, x: T)
    requires
        0 <= i <= s.len(),
    ensures
        views(s.insert(i, x)) == views(s).insert(i, x@),
{
    assert(views(s.insert(i, x)) =~= views(s).insert(i, x@));
}

} // verus!
