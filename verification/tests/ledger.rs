use inventory::catalog::Catalog;
use inventory::rows::StoreError;

fn one_batch(total: u32, shelf: u32) -> (Catalog, i64) {
    let mut c = Catalog::new();
    let s = c.create_section("Bebidas".to_string()).unwrap();
    let t = c.create_type("Refrigerante".to_string(), s).unwrap();
    let p = c.create_product("Coca-Cola".to_string(), t).unwrap();
    let b = c.create_batch(p, "2025-01-01".to_string(), total, shelf).unwrap();
    (c, b)
}

fn shelf_of(c: &Catalog, batch_id: i64) -> u32 {
    c.batches().iter().find(|b| b.id == batch_id).unwrap().shelf_quantity
}

fn in_bounds(c: &Catalog) -> bool {
    c.batches().iter().all(|b| b.shelf_quantity <= b.total_quantity)
}

#[test]
fn sell_takes_units_off_the_shelf() {
    let (mut c, b) = one_batch(100, 30);
    assert_eq!(c.sell(b, 10), Ok(()));
    assert_eq!(shelf_of(&c, b), 20);
    assert_eq!(c.batches()[0].total_quantity, 100);
}

#[test]
fn sell_all_that_is_on_the_shelf() {
    let (mut c, b) = one_batch(100, 30);
    assert_eq!(c.sell(b, 30), Ok(()));
    assert_eq!(shelf_of(&c, b), 0);
}

#[test]
fn sell_nothing_changes_nothing() {
    let (mut c, b) = one_batch(100, 30);
    assert_eq!(c.sell(b, 0), Ok(()));
    assert_eq!(shelf_of(&c, b), 30);
}

#[test]
fn sell_beyond_shelf_fails_and_changes_nothing() {
    let (mut c, b) = one_batch(100, 30);
    assert_eq!(c.sell(b, 31), Err(StoreError::InsufficientShelfStock));
    assert_eq!(shelf_of(&c, b), 30);
    assert_eq!(c.batches()[0].total_quantity, 100);
}

#[test]
fn sell_of_unknown_batch_is_not_found() {
    let (mut c, b) = one_batch(100, 30);
    assert_eq!(c.sell(b + 1, 1), Err(StoreError::NotFound));
    assert_eq!(shelf_of(&c, b), 30);
}

#[test]
fn restock_moves_units_to_the_shelf() {
    let (mut c, b) = one_batch(100, 30);
    assert_eq!(c.restock(b, 70), Ok(()));
    assert_eq!(shelf_of(&c, b), 100);
}

#[test]
fn restock_beyond_total_fails_and_changes_nothing() {
    let (mut c, b) = one_batch(100, 30);
    assert_eq!(c.restock(b, 71), Err(StoreError::ExceedsTotalStock));
    assert_eq!(shelf_of(&c, b), 30);
}

#[test]
fn restock_of_the_largest_quantity_does_not_overflow() {
    let (mut c, b) = one_batch(u32::MAX, u32::MAX - 1);
    assert_eq!(c.restock(b, u32::MAX), Err(StoreError::ExceedsTotalStock));
    assert_eq!(c.restock(b, 1), Ok(()));
    assert_eq!(shelf_of(&c, b), u32::MAX);
}

#[test]
fn restock_of_unknown_batch_is_not_found() {
    let (mut c, b) = one_batch(100, 30);
    assert_eq!(c.restock(b + 7, 1), Err(StoreError::NotFound));
}

#[test]
fn sell_then_restock_restores_the_shelf() {
    for q in [0u32, 1, 17, 30] {
        let (mut c, b) = one_batch(100, 30);
        assert_eq!(c.sell(b, q), Ok(()));
        assert_eq!(c.restock(b, q), Ok(()));
        assert_eq!(shelf_of(&c, b), 30);
    }
}

#[test]
fn set_shelf_quantity_overwrites_without_a_bound() {
    let (mut c, b) = one_batch(100, 30);
    c.set_shelf_quantity(b, 55);
    assert_eq!(shelf_of(&c, b), 55);
    c.set_shelf_quantity(b, 250);
    assert_eq!(shelf_of(&c, b), 250);
    assert_eq!(c.batches()[0].total_quantity, 100);
}

#[test]
fn set_shelf_quantity_of_unknown_batch_changes_nothing() {
    let (mut c, b) = one_batch(100, 30);
    c.set_shelf_quantity(b + 1, 5);
    assert_eq!(shelf_of(&c, b), 30);
    assert_eq!(c.batches().len(), 1);
}

#[test]
fn restock_after_an_overfull_shelf_fails() {
    let (mut c, b) = one_batch(5, 5);
    c.set_shelf_quantity(b, 10);
    assert_eq!(c.sell(b, 1), Ok(()));
    assert_eq!(c.restock(b, 1), Err(StoreError::ExceedsTotalStock));
    assert_eq!(shelf_of(&c, b), 9);
}

#[test]
fn shelf_stays_within_total_through_the_ledger() {
    let (mut c, b) = one_batch(40, 10);
    assert!(in_bounds(&c));
    let _ = c.sell(b, 4);
    assert!(in_bounds(&c));
    let _ = c.restock(b, 34);
    assert!(in_bounds(&c));
    let _ = c.restock(b, 1);
    assert!(in_bounds(&c));
    let _ = c.sell(b, 41);
    assert!(in_bounds(&c));
    c.set_shelf_quantity(b, 40);
    assert!(in_bounds(&c));
    assert_eq!(shelf_of(&c, b), 40);
}

#[test]
fn ledger_touches_one_batch_only() {
    let mut c = Catalog::new();
    let s = c.create_section("A".to_string()).unwrap();
    let t = c.create_type("B".to_string(), s).unwrap();
    let p = c.create_product("C".to_string(), t).unwrap();
    let b1 = c.create_batch(p, "2025-01-01".to_string(), 10, 5).unwrap();
    let b2 = c.create_batch(p, "2025-02-01".to_string(), 20, 6).unwrap();
    assert_eq!(c.sell(b2, 6), Ok(()));
    assert_eq!(shelf_of(&c, b1), 5);
    assert_eq!(shelf_of(&c, b2), 0);
    assert_eq!(c.batches()[1].expiry_date, "2025-02-01");
    assert_eq!(c.batches()[1].product_id, p);
}
