//! The stock ledger: selling from the shelf, restocking the shelf from the
//! reserve, and correcting the shelf count by hand.
//!
//! A batch has `total_quantity` units, of which `shelf_quantity` are on the
//! shelf; the reserve is the difference and has no counter of its own.

use vstd::prelude::*;
use crate::catalog::{state_after, Catalog, CatalogView};
use crate::rows::{views, Batch, BatchView, StoreError};
use crate::table::{find_id, has_id, index_of_id, lemma_index_of_id};

verus! {

impl CatalogView {
    /// The batch with the identifier `id`, where there is one.
    pub open spec fn batch(self, id: i64) -> BatchView
        recommends
            has_id(self.batches, id),
    {
        self.batches[index_of_id(self.batches, id)]
    }

    /// The catalog in which the batch `id` has `value` units on the shelf.
    pub open spec fn with_shelf(self, id: i64, value: u32) -> CatalogView
        recommends
            has_id(self.batches, id),
    {
        CatalogView {
            batches: self.batches.update(
                index_of_id(self.batches, id),
                BatchView { shelf_quantity: value, ..self.batch(id) },
            ),
            ..self
        }
    }

    /// Selling `quantity` units of the batch `id` from the shelf.
    pub open spec fn sell(self, id: i64, quantity: u32) -> Result<CatalogView, StoreError> {
        if !has_id(self.batches, id) {
            Err(StoreError::NotFound)
        } else if quantity > self.batch(id).shelf_quantity {
            Err(StoreError::InsufficientShelfStock)
        } else {
            Ok(self.with_shelf(id, (self.batch(id).shelf_quantity - quantity) as u32))
        }
    }

    /// Moving `quantity` units of the batch `id` from the reserve to the
    /// shelf.
    pub open spec fn restock(self, id: i64, quantity: u32) -> Result<CatalogView, StoreError> {
        if !has_id(self.batches, id) {
            Err(StoreError::NotFound)
        } else if self.batch(id).shelf_quantity + quantity > self.batch(id).total_quantity {
            Err(StoreError::ExceedsTotalStock)
        } else {
            Ok(self.with_shelf(id, (self.batch(id).shelf_quantity + quantity) as u32))
        }
    }

    /// Setting the shelf count of the batch `id` to `value`, whatever the
    /// total; nothing changes where there is no such batch.
    pub open spec fn set_shelf_quantity(self, id: i64, value: u32) -> CatalogView {
        if has_id(self.batches, id) {
            self.with_shelf(id, value)
        } else {
            self
        }
    }
}

/// Changing a shelf count leaves the catalog well formed, and leaves every
/// shelf within its total if the new count is within the total of its batch.
pub proof fn lemma_with_shelf(c: CatalogView, id: i64, value: u32)
    requires
        c.wf(),
        has_id(c.batches, id),
    ensures
        c.with_shelf(id, value).wf(),
        c.stock_in_bounds() && value <= c.batch(id).total_quantity ==> c.with_shelf(
            id,
            value,
        ).stock_in_bounds(),
{
    let d = c.with_shelf(id, value);
    let k = index_of_id(c.batches, id);
    assert forall|i: int, j: int| 0 <= i < j < d.batches.len() implies (
    #[trigger] d.batches[i]).id != (#[trigger] d.batches[j]).id by {
        assert(c.batches[i].id != c.batches[j].id);
    }
    assert forall|i: int| 0 <= i < d.batches.len() implies has_id(
        d.products,
        (#[trigger] d.batches[i]).product_id,
    ) by {
        assert(has_id(c.products, c.batches[i].product_id));
    }
    if c.stock_in_bounds() && value <= c.batch(id).total_quantity {
        assert forall|i: int| 0 <= i < d.batches.len() implies (
        #[trigger] d.batches[i]).shelf_quantity <= d.batches[i].total_quantity by {
            assert(c.batches[i].shelf_quantity <= c.batches[i].total_quantity);
        }
    }
}

/// A sale followed by a restock of the same quantity restores the catalog,
/// provided the shelf of the batch was within its total.
pub proof fn law_sell_then_restock(c: CatalogView, id: i64, quantity: u32)
    requires
        c.wf(),
        c.sell(id, quantity) is Ok,
        c.batch(id).shelf_quantity <= c.batch(id).total_quantity,
    ensures
        c.sell(id, quantity)->Ok_0.restock(id, quantity) == Ok::<CatalogView, StoreError>(c),
{
    let k = index_of_id(c.batches, id);
    let d = c.sell(id, quantity)->Ok_0;
    assert(d.batches[k].id == id);
    lemma_with_shelf(c, id, (c.batch(id).shelf_quantity - quantity) as u32);
    lemma_index_of_id(d.batches, k);
    let e = d.restock(id, quantity)->Ok_0;
    assert(e.batches =~= c.batches);
}

/// A sale of more than the shelf holds fails with `InsufficientShelfStock`
/// and leaves the catalog as it was.
pub proof fn law_sell_beyond_shelf(c: CatalogView, id: i64, quantity: u32)
    requires
        has_id(c.batches, id),
        quantity > c.batch(id).shelf_quantity,
    ensures
        c.sell(id, quantity) == Err::<CatalogView, StoreError>(StoreError::InsufficientShelfStock),
        state_after(c, c.sell(id, quantity)) == c,
{
}

/// A restock that would put more on the shelf than the batch has in total
/// fails with `ExceedsTotalStock` and leaves the catalog as it was.
pub proof fn law_restock_beyond_total(c: CatalogView, id: i64, quantity: u32)
    requires
        has_id(c.batches, id),
        c.batch(id).shelf_quantity + quantity > c.batch(id).total_quantity,
    ensures
        c.restock(id, quantity) == Err::<CatalogView, StoreError>(StoreError::ExceedsTotalStock),
        state_after(c, c.restock(id, quantity)) == c,
{
}

impl Catalog {
    /// Writes a shelf count into the batch at position `i`.
    fn write_shelf(&mut self, i: usize, value: u32)
        requires
            old(self)@.wf(),
            i < old(self)@.batches.len(),
        ensures
            final(self)@ == old(self)@.with_shelf(old(self)@.batches[i as int].id, value),
    {
        let b = &self.batches[i];
        let row = Batch {
            id: b.id,
            product_id: b.product_id,
            expiry_date: b.expiry_date.clone(),
            total_quantity: b.total_quantity,
            shelf_quantity: value,
        };
        proof {
            lemma_index_of_id(self@.batches, i as int);
            assert(views(self.batches@.update(i as int, row)) =~= views(self.batches@).update(
                i as int,
                row@,
            ));
        }
        self.batches.set(i, row);
    }

    /// Takes `quantity` units of a batch off the shelf. Fails with
    /// `NotFound` if there is no such batch and with
    /// `InsufficientShelfStock` if the shelf holds fewer units; a failure
    /// changes nothing.
    pub fn sell(&mut self, batch_id: i64, quantity: u32) -> (r: Result<(), StoreError>)
        requires
            old(self)@.wf(),
        ensures
            final(self)@.wf(),
            final(self)@ == state_after(old(self)@, old(self)@.sell(batch_id, quantity)),
            match r {
                Ok(_) => old(self)@.sell(batch_id, quantity) is Ok,
                Err(e) => old(self)@.sell(batch_id, quantity) == Err::<CatalogView, StoreError>(e),
            },
            has_id(old(self)@.batches, batch_id) && quantity > old(self)@.batch(
                batch_id,
            ).shelf_quantity ==> r == Err::<(), StoreError>(StoreError::InsufficientShelfStock)
                && final(self)@ == old(self)@,
            old(self)@.stock_in_bounds() ==> final(self)@.stock_in_bounds(),
    {
        match find_id(&self.batches, batch_id) {
            None => Err(StoreError::NotFound),
            Some(i) => {
                proof {
                    lemma_index_of_id(self@.batches, i as int);
                }
                let shelf: u32 = self.batches[i].shelf_quantity;
                if quantity > shelf {
                    Err(StoreError::InsufficientShelfStock)
                } else {
                    proof {
                        lemma_with_shelf(self@, batch_id, (shelf - quantity) as u32);
                    }
                    self.write_shelf(i, shelf - quantity);
                    Ok(())
                }
            },
        }
    }

    /// Moves `quantity` units of a batch from the reserve to the shelf.
    /// Fails with `NotFound` if there is no such batch and with
    /// `ExceedsTotalStock` if the shelf would hold more than the batch has in
    /// total; a failure changes nothing.
    pub fn restock(&mut self, batch_id: i64, quantity: u32) -> (r: Result<(), StoreError>)
        requires
            old(self)@.wf(),
        ensures
            final(self)@.wf(),
            final(self)@ == state_after(old(self)@, old(self)@.restock(batch_id, quantity)),
            match r {
                Ok(_) => old(self)@.restock(batch_id, quantity) is Ok,
                Err(e) => old(self)@.restock(batch_id, quantity) == Err::<CatalogView, StoreError>(
                    e,
                ),
            },
            has_id(old(self)@.batches, batch_id) && old(self)@.batch(batch_id).shelf_quantity
                + quantity > old(self)@.batch(batch_id).total_quantity ==> r == Err::<
                (),
                StoreError,
            >(StoreError::ExceedsTotalStock) && final(self)@ == old(self)@,
            old(self)@.stock_in_bounds() ==> final(self)@.stock_in_bounds(),
    {
        match find_id(&self.batches, batch_id) {
            None => Err(StoreError::NotFound),
            Some(i) => {
                proof {
                    lemma_index_of_id(self@.batches, i as int);
                }
                let shelf: u32 = self.batches[i].shelf_quantity;
                let total: u32 = self.batches[i].total_quantity;
                if quantity > total || shelf > total - quantity {
                    Err(StoreError::ExceedsTotalStock)
                } else {
                    proof {
                        lemma_with_shelf(self@, batch_id, (shelf + quantity) as u32);
                    }
                    self.write_shelf(i, shelf + quantity);
                    Ok(())
                }
            },
        }
    }

    /// Sets the shelf count of a batch to `value` without looking at its
    /// total: the caller answers for the value. Where there is no such
    /// batch, nothing changes.
    pub fn set_shelf_quantity(&mut self, batch_id: i64, value: u32)
        requires
            old(self)@.wf(),
        ensures
            final(self)@.wf(),
            final(self)@ == old(self)@.set_shelf_quantity(batch_id, value),
            old(self)@.stock_in_bounds() && (has_id(old(self)@.batches, batch_id) ==> value <= old(
                self,
            )@.batch(batch_id).total_quantity) ==> final(self)@.stock_in_bounds(),
    {
        match find_id(&self.batches, batch_id) {
            None => {},
            Some(i) => {
                proof {
                    lemma_index_of_id(self@.batches, i as int);
                    lemma_with_shelf(self@, batch_id, value);
                }
                self.write_shelf(i, value);
            },
        }
    }
}

} // verus!
