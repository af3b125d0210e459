use inventory::catalog::Catalog;
use inventory::exchange::ImportSummary;
use inventory::rows::StoreError;

#[test]
fn a_batch_is_sold_refused_and_carried_through_a_table() {
    let mut c = Catalog::new();
    let section = c.create_section("Bebidas".to_string()).unwrap();
    let kind = c.create_type("Refrigerante".to_string(), section).unwrap();
    let product = c.create_product("COCA-COLA".to_string(), kind).unwrap();
    let batch = c.create_batch(product, "2025-01-01".to_string(), 100, 30).unwrap();

    assert_eq!(c.sell(batch, 10), Ok(()));
    assert_eq!(c.batches()[0].shelf_quantity, 20);

    assert_eq!(c.sell(batch, 50), Err(StoreError::InsufficientShelfStock));
    assert_eq!(c.batches()[0].shelf_quantity, 20);

    assert_eq!(c.restock(batch, 90), Err(StoreError::ExceedsTotalStock));
    assert_eq!(c.batches()[0].shelf_quantity, 20);

    let text = c.export();
    assert_eq!(
        text,
        "Se\u{e7}\u{e3}o,Tipo,Produto,Validade,Total,Prateleira\nBebidas,Refrigerante,COCA-COLA,2025-01-01,100,20\n"
    );
    assert_eq!(c.import(&text), Ok(ImportSummary { imported: 1, skipped: 0 }));
    assert_eq!(c.export(), text);
    assert_eq!(c.batches().len(), 1);
    assert_eq!(c.batches()[0].total_quantity, 100);
    assert_eq!(c.batches()[0].shelf_quantity, 20);
    assert_eq!(c.batches()[0].expiry_date, "2025-01-01");
    assert_eq!(c.products()[0].name, "COCA-COLA");
    assert_eq!(c.types()[0].name, "Refrigerante");
    assert_eq!(c.sections()[0].name, "Bebidas");
}

#[test]
fn a_table_without_the_section_word_leaves_the_catalog_untouched() {
    let mut c = Catalog::new();
    let section = c.create_section("Bebidas".to_string()).unwrap();
    let kind = c.create_type("Refrigerante".to_string(), section).unwrap();
    let product = c.create_product("COCA-COLA".to_string(), kind).unwrap();
    c.create_batch(product, "2025-01-01".to_string(), 100, 30).unwrap();
    let before = c.export();
    assert_eq!(
        c.import("Tipo,Produto,Validade,Total,Prateleira\nLimpeza,Sab\u{e3}o,OMO,2025-01-01,1,1\n"),
        Err(StoreError::InvalidFormat)
    );
    assert_eq!(c.export(), before);
    assert_eq!(c.sections().len(), 1);
    assert_eq!(c.types().len(), 1);
    assert_eq!(c.products().len(), 1);
    assert_eq!(c.batches().len(), 1);
    assert_eq!(c.batches()[0].shelf_quantity, 30);
}

#[test]
fn a_short_row_is_counted_and_the_rows_after_it_are_imported() {
    let mut c = Catalog::new();
    let text = "Se\u{e7}\u{e3}o,Tipo,Produto,Validade,Total,Prateleira\n\
                Bebidas,Refrigerante,COCA-COLA,2025-01-01\n\
                Bebidas,Refrigerante,PEPSI,2025-02-01,40,10\n\
                Bebidas,Suco,UVA,2025-03-01,8,8\n";
    assert_eq!(c.import(text), Ok(ImportSummary { imported: 2, skipped: 1 }));
    let names: Vec<String> = c.products().iter().map(|p| p.name.clone()).collect();
    assert_eq!(names, vec!["PEPSI", "UVA"]);
    assert_eq!(c.batches().len(), 2);
    assert_eq!(c.sections().len(), 1);
}
