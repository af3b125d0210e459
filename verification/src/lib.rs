//! An inventory catalog: sections, types, products and dated batches, with a
//! shelf ledger, a rollup report and a flat text form for bulk exchange.
//!
//! The catalog is a value: four tables of records that an operation reads or
//! changes. Every operation has a contract over the mathematical content of
//! the catalog, and the laws that tie the operations together are proved
//! beside them.
//!
//! - `rows`: the records and the reasons of failure
//! - `text`, `decimal`, `fields`: names, quantities and lines as characters
//! - `order`, `table`: listing by name, and what the tables have in common
//! - `catalog`: creating, listing, deleting and searching
//! - `ledger`: selling, restocking and correcting the shelf
//! - `report`, `totals`: the rollup report, and why its quantities add up
//! - `csv`, `codec_laws`: the text of a table, and why it is read back as
//!   it was written
//! - `exchange`, `exchange_laws`: export and import, and why a catalog
//!   survives them
//! - `expiry`: batches that expire within a number of days

pub mod rows;
pub mod text;
pub mod decimal;
pub mod fields;
pub mod order;
pub mod table;
pub mod catalog;
pub mod ledger;
pub mod csv;
pub mod codec_laws;
pub mod exchange;
pub mod exchange_laws;
pub mod report;
pub mod totals;
pub mod expiry;
