use inventory::catalog::Catalog;
use inventory::csv::{parse_table, read_data_line, write_table, CsvRow, CsvTable};
use inventory::exchange::ImportSummary;
use inventory::rows::{Section, StoreError, Type};

const HEADER: &str = "Se\u{e7}\u{e3}o,Tipo,Produto,Validade,Total,Prateleira\n";

fn row(s: &str, t: &str, p: &str, e: &str, total: u32, shelf: u32) -> CsvRow {
    CsvRow {
        section: s.to_string(),
        product_type: t.to_string(),
        product: p.to_string(),
        expiry_date: e.to_string(),
        total_quantity: total,
        shelf_quantity: shelf,
    }
}

fn chars(s: &str) -> Vec<char> {
    s.chars().collect()
}

fn tuples(c: &Catalog) -> Vec<(String, String, String, String, u32, u32)> {
    let mut v: Vec<_> = c
        .export_rows()
        .into_iter()
        .map(|r| {
            (r.section, r.product_type, r.product, r.expiry_date, r.total_quantity, r.shelf_quantity)
        })
        .collect();
    v.sort();
    v.dedup();
    v
}

fn stocked() -> Catalog {
    let mut c = Catalog::new();
    let s1 = c.create_section("Limpeza".to_string()).unwrap();
    let s2 = c.create_section("Bebidas".to_string()).unwrap();
    let _s3 = c.create_section("Vazia".to_string()).unwrap();
    let t1 = c.create_type("Sab\u{e3}o".to_string(), s1).unwrap();
    let t2 = c.create_type("Suco".to_string(), s2).unwrap();
    let t3 = c.create_type("Refrigerante".to_string(), s2).unwrap();
    let _t4 = c.create_type("Cerveja".to_string(), s2).unwrap();
    let p1 = c.create_product("Omo".to_string(), t1).unwrap();
    let p2 = c.create_product("Uva".to_string(), t2).unwrap();
    let p3 = c.create_product("Pepsi".to_string(), t3).unwrap();
    let p4 = c.create_product("Coca-Cola".to_string(), t3).unwrap();
    let _p5 = c.create_product("Fanta".to_string(), t3).unwrap();
    c.create_batch(p1, "2026-03-01".to_string(), 7, 7).unwrap();
    c.create_batch(p4, "2025-06-01".to_string(), 100, 30).unwrap();
    c.create_batch(p2, "2025-02-01".to_string(), 12, 0).unwrap();
    c.create_batch(p3, "2025-04-01".to_string(), 48, 24).unwrap();
    c.create_batch(p4, "2025-01-01".to_string(), 60, 60).unwrap();
    c
}

#[test]
fn export_of_an_empty_catalog_is_the_header() {
    let c = Catalog::new();
    assert_eq!(c.export(), HEADER);
    assert!(c.export_rows().is_empty());
}

#[test]
fn export_writes_one_line_for_each_batch_by_names() {
    let c = stocked();
    let expected = format!(
        "{}{}{}{}{}{}",
        HEADER,
        "Bebidas,Refrigerante,COCA-COLA,2025-06-01,100,30\n",
        "Bebidas,Refrigerante,COCA-COLA,2025-01-01,60,60\n",
        "Bebidas,Refrigerante,PEPSI,2025-04-01,48,24\n",
        "Bebidas,Suco,UVA,2025-02-01,12,0\n",
        "Limpeza,Sab\u{e3}o,OMO,2026-03-01,7,7\n"
    );
    assert_eq!(c.export(), expected);
}

#[test]
fn export_leaves_out_what_has_no_batch() {
    let c = stocked();
    let text = c.export();
    assert!(!text.contains("Vazia"));
    assert!(!text.contains("Cerveja"));
    assert!(!text.contains("FANTA"));
    assert_eq!(c.export_rows().len(), 5);
}

#[test]
fn export_rows_hold_the_names_and_quantities() {
    let c = stocked();
    let rows = c.export_rows();
    assert_eq!(rows[0], row("Bebidas", "Refrigerante", "COCA-COLA", "2025-06-01", 100, 30));
    assert_eq!(rows[4], row("Limpeza", "Sab\u{e3}o", "OMO", "2026-03-01", 7, 7));
}

#[test]
fn table_is_written_with_quantities_in_decimal() {
    let rows = vec![row("A", "B", "C", "D", 0, 4294967295), row("E", "F", "G", "H", 1000, 10)];
    assert_eq!(write_table(&rows), format!("{}A,B,C,D,0,4294967295\nE,F,G,H,1000,10\n", HEADER));
    assert_eq!(write_table(&Vec::new()), HEADER);
}

#[test]
fn written_table_is_read_back() {
    let rows = vec![
        row("Bebidas", "Suco de fruta", "UVA 1L", "2025-01-01", 0, 4294967295),
        row("E", "F", "G", "H", 1000, 10),
        row("E", "F", "G", "H", 1000, 10),
    ];
    let text = write_table(&rows);
    assert_eq!(parse_table(&text), Ok(CsvTable { rows, skipped: 0 }));
}

#[test]
fn import_of_an_export_keeps_the_rows() {
    let c = stocked();
    let before = tuples(&c);
    let text = c.export();
    let mut d = stocked();
    assert_eq!(d.import(&text), Ok(ImportSummary { imported: 5, skipped: 0 }));
    assert_eq!(tuples(&d), before);
    assert_eq!(d.export(), text);
    assert_eq!(d.sections().len(), 2);
    assert_eq!(d.types().len(), 3);
    assert_eq!(d.products().len(), 4);
    assert_eq!(d.batches().len(), 5);
}

#[test]
fn import_into_another_catalog_replaces_what_it_held() {
    let text = stocked().export();
    let mut d = Catalog::new();
    let s = d.create_section("Padaria".to_string()).unwrap();
    let t = d.create_type("P\u{e3}o".to_string(), s).unwrap();
    let p = d.create_product("Franc\u{ea}s".to_string(), t).unwrap();
    d.create_batch(p, "2025-01-01".to_string(), 1, 1).unwrap();
    assert_eq!(d.import(&text), Ok(ImportSummary { imported: 5, skipped: 0 }));
    assert_eq!(tuples(&d), tuples(&stocked()));
    assert!(d.sections().iter().all(|s| s.name != "Padaria"));
}

#[test]
fn import_numbers_the_records_anew() {
    let mut c = Catalog::new();
    let text = format!("{}B,T,p,2025-01-01,5,1\nA,T,p,2025-01-02,6,2\nB,T,q,2025-01-03,7,3\n", HEADER);
    assert_eq!(c.import(&text), Ok(ImportSummary { imported: 3, skipped: 0 }));
    let sections: Vec<(i64, String)> =
        c.sections().iter().map(|s| (s.id, s.name.clone())).collect();
    assert_eq!(sections, vec![(1, "B".to_string()), (2, "A".to_string())]);
    let types: Vec<(i64, String, i64)> =
        c.types().iter().map(|t| (t.id, t.name.clone(), t.section_id)).collect();
    assert_eq!(types, vec![(1, "T".to_string(), 1), (2, "T".to_string(), 2)]);
    let products: Vec<(i64, String, i64)> =
        c.products().iter().map(|p| (p.id, p.name.clone(), p.type_id)).collect();
    assert_eq!(
        products,
        vec![(1, "P".to_string(), 1), (2, "P".to_string(), 2), (3, "Q".to_string(), 1)]
    );
    let batches: Vec<(i64, i64, u32, u32)> = c
        .batches()
        .iter()
        .map(|b| (b.id, b.product_id, b.total_quantity, b.shelf_quantity))
        .collect();
    assert_eq!(batches, vec![(1, 1, 5, 1), (2, 2, 6, 2), (3, 3, 7, 3)]);
}

#[test]
fn import_folds_repeated_names_into_one_record() {
    let mut c = Catalog::new();
    let text = format!(
        "{}Bebidas,Suco,uva,2025-01-01,5,1\nBebidas,Suco,UVA,2025-02-01,6,2\nBebidas,Suco,Uva,2025-02-01,6,2\n",
        HEADER
    );
    assert_eq!(c.import(&text), Ok(ImportSummary { imported: 3, skipped: 0 }));
    assert_eq!(c.sections().len(), 1);
    assert_eq!(c.types().len(), 1);
    assert_eq!(c.products().len(), 1);
    assert_eq!(c.products()[0].name, "UVA");
    assert_eq!(c.batches().len(), 3);
    assert!(c.batches().iter().all(|b| b.product_id == 1));
}

#[test]
fn import_without_a_header_is_invalid_and_changes_nothing() {
    let mut c = stocked();
    let before = c.export();
    assert_eq!(
        c.import("Tipo,Produto,Validade,Total,Prateleira\nA,B,C,2025-01-01,1,1\n"),
        Err(StoreError::InvalidFormat)
    );
    assert_eq!(c.export(), before);
    assert_eq!(c.import("A,B,C,2025-01-01,1,1\n"), Err(StoreError::InvalidFormat));
    assert_eq!(c.import("Section,Type,Product,Expiry,Total,OnShelf\n"), Err(StoreError::InvalidFormat));
    assert_eq!(c.import("secao,tipo\n"), Err(StoreError::InvalidFormat));
    assert_eq!(c.export(), before);
    assert_eq!(c.batches().len(), 5);
}

#[test]
fn import_of_an_empty_text_is_invalid() {
    let mut c = stocked();
    assert_eq!(c.import(""), Err(StoreError::InvalidFormat));
    assert_eq!(c.import("\n"), Err(StoreError::InvalidFormat));
    assert_eq!(c.import(&format!("\n{}", HEADER)), Err(StoreError::InvalidFormat));
    assert_eq!(c.batches().len(), 5);
}

#[test]
fn header_may_spell_the_section_without_accents() {
    let mut c = stocked();
    assert_eq!(
        c.import("Secao,Tipo,Produto,Validade,Total,Prateleira\nA,B,c,2025-01-01,3,2\n"),
        Ok(ImportSummary { imported: 1, skipped: 0 })
    );
    assert_eq!(c.export_rows(), vec![row("A", "B", "C", "2025-01-01", 3, 2)]);
}

#[test]
fn header_is_found_anywhere_in_the_first_line() {
    assert!(parse_table("id;Nome da Se\u{e7}\u{e3}o;x").is_ok());
    assert!(parse_table("xxSecaoxx\r\n").is_ok());
    assert_eq!(parse_table("SECAO\n").err(), Some(StoreError::InvalidFormat));
    assert_eq!(parse_table("Sec\u{e3}o\n").err(), Some(StoreError::InvalidFormat));
    assert_eq!(parse_table("Se\u{e7}ao\n").err(), Some(StoreError::InvalidFormat));
}

#[test]
fn import_of_a_header_alone_empties_the_catalog() {
    let mut c = stocked();
    assert_eq!(c.import(HEADER), Ok(ImportSummary { imported: 0, skipped: 0 }));
    assert!(c.sections().is_empty());
    assert!(c.types().is_empty());
    assert!(c.products().is_empty());
    assert!(c.batches().is_empty());
}

#[test]
fn row_with_four_fields_is_skipped_and_the_next_imported() {
    let mut c = Catalog::new();
    let text = format!(
        "{}Bebidas,Suco,Uva,2025-01-01\nBebidas,Suco,Uva,2025-01-01,10,4\nLimpeza,Sab\u{e3}o,Omo,2025-03-01,2,1\n",
        HEADER
    );
    assert_eq!(c.import(&text), Ok(ImportSummary { imported: 2, skipped: 1 }));
    assert_eq!(
        c.export_rows(),
        vec![
            row("Bebidas", "Suco", "UVA", "2025-01-01", 10, 4),
            row("Limpeza", "Sab\u{e3}o", "OMO", "2025-03-01", 2, 1)
        ]
    );
    assert_eq!(c.batches().len(), 2);
}

#[test]
fn skipped_row_creates_no_record() {
    let mut c = Catalog::new();
    let text = format!("{}Nova,Tipo,Produto,2025-01-01\nA,B\n,,,,,\n", HEADER);
    assert_eq!(c.import(&text), Ok(ImportSummary { imported: 0, skipped: 3 }));
    assert!(c.sections().is_empty());
    assert!(c.types().is_empty());
    assert!(c.products().is_empty());
    assert!(c.batches().is_empty());
}

#[test]
fn blank_lines_are_passed_over_without_counting() {
    let mut c = Catalog::new();
    let text = format!("{}\n   \nA,B,C,2025-01-01,1,1\n\t\n\nD,E,F,2025-01-01,2,2\n\n", HEADER);
    assert_eq!(c.import(&text), Ok(ImportSummary { imported: 2, skipped: 0 }));
}

#[test]
fn quantity_that_is_no_number_counts_as_zero() {
    let table = parse_table(&format!(
        "{}A,B,C,D,dez,5\nA,B,C,D,7,\nA,B,C,D,1.5,2e3\nA,B,C,D,-3,+4\nA,B,C,D,4294967296,4294967295\nA,B,C,D, 12 ,007\n",
        HEADER
    ))
    .unwrap();
    assert_eq!(
        table.rows,
        vec![
            row("A", "B", "C", "D", 0, 5),
            row("A", "B", "C", "D", 7, 0),
            row("A", "B", "C", "D", 0, 0),
            row("A", "B", "C", "D", 0, 4),
            row("A", "B", "C", "D", 0, 4294967295),
            row("A", "B", "C", "D", 12, 7),
        ]
    );
    assert_eq!(table.skipped, 0);
}

#[test]
fn import_stores_quantities_as_they_are_given() {
    let mut c = Catalog::new();
    let text = format!("{}A,B,C,2025-01-01,10,20\n", HEADER);
    assert_eq!(c.import(&text), Ok(ImportSummary { imported: 1, skipped: 0 }));
    assert_eq!(c.batches()[0].total_quantity, 10);
    assert_eq!(c.batches()[0].shelf_quantity, 20);
}

#[test]
fn fields_are_trimmed_and_further_fields_ignored() {
    let table = parse_table(&format!(
        "{}  Bebidas ,\tSuco , uva verde ,2025-01-01 , 5 , 2 ,extra,more\r\n",
        HEADER
    ))
    .unwrap();
    assert_eq!(table.rows, vec![row("Bebidas", "Suco", "uva verde", "2025-01-01", 5, 2)]);
    assert_eq!(table.skipped, 0);
}

#[test]
fn row_with_an_empty_text_is_skipped() {
    let table = parse_table(&format!(
        "{},B,C,D,1,1\nA, ,C,D,1,1\nA,B,,D,1,1\nA,B,C,\t,1,1\nA,B,C,D,,\n",
        HEADER
    ))
    .unwrap();
    assert_eq!(table.rows, vec![row("A", "B", "C", "D", 0, 0)]);
    assert_eq!(table.skipped, 4);
}

#[test]
fn lines_may_end_in_carriage_return_and_line_feed() {
    let mut c = Catalog::new();
    let text = "Se\u{e7}\u{e3}o,Tipo,Produto,Validade,Total,Prateleira\r\nA,B,c,2025-01-01,3,2\r\nD,E,f,2025-01-02,4,1\r\n";
    assert_eq!(c.import(text), Ok(ImportSummary { imported: 2, skipped: 0 }));
    assert_eq!(c.batches()[0].shelf_quantity, 2);
    assert_eq!(c.batches()[1].shelf_quantity, 1);
    assert_eq!(c.batches()[1].expiry_date, "2025-01-02");
}

#[test]
fn last_line_needs_no_line_feed() {
    let table = parse_table(&format!("{}A,B,C,D,1,1\nE,F,G,H,2,2", HEADER)).unwrap();
    assert_eq!(table.rows.len(), 2);
    assert_eq!(table.rows[1], row("E", "F", "G", "H", 2, 2));
}

#[test]
fn data_line_is_read_as_blank_malformed_or_row() {
    assert_eq!(read_data_line(&chars("")), Ok(None));
    assert_eq!(read_data_line(&chars(" \t\r")), Ok(None));
    assert_eq!(read_data_line(&chars("a,b,c,d,1")), Err(StoreError::RowSkipped));
    assert_eq!(read_data_line(&chars("a")), Err(StoreError::RowSkipped));
    assert_eq!(read_data_line(&chars("a,b,,d,1,1")), Err(StoreError::RowSkipped));
    assert_eq!(read_data_line(&chars("a,b,c,d,1,2")), Ok(Some(row("a", "b", "c", "d", 1, 2))));
    assert_eq!(read_data_line(&chars("a,b,c,d,,")), Ok(Some(row("a", "b", "c", "d", 0, 0))));
}

#[test]
fn replace_all_brings_in_the_rows_in_their_order() {
    let mut c = stocked();
    let rows = vec![row("Z", "T", "p", "2025-01-01", 1, 1), row("A", "T", "q", "2025-01-02", 2, 0)];
    assert_eq!(c.replace_all(&rows), Ok(()));
    assert_eq!(c.sections()[0].name, "Z");
    assert_eq!(c.sections()[1].name, "A");
    assert_eq!(
        c.export_rows(),
        vec![row("A", "T", "Q", "2025-01-02", 2, 0), row("Z", "T", "P", "2025-01-01", 1, 1)]
    );
    assert_eq!(c.replace_all(&Vec::new()), Ok(()));
    assert!(c.sections().is_empty());
}

#[test]
fn load_row_reuses_what_is_there() {
    let mut c = stocked();
    assert_eq!(c.load_row(&row("Bebidas", "Suco", "uva", "2027-01-01", 9, 3)), Ok(()));
    assert_eq!(c.sections().len(), 3);
    assert_eq!(c.types().len(), 4);
    assert_eq!(c.products().len(), 5);
    assert_eq!(c.batches().len(), 6);
    assert_eq!(c.batches()[5].product_id, 2);
    assert_eq!(c.load_row(&row("Bebidas", "Vinho", "tinto", "2027-01-01", 9, 3)), Ok(()));
    assert_eq!(c.sections().len(), 3);
    assert_eq!(c.types().len(), 5);
    assert_eq!(c.products().len(), 6);
    assert_eq!(c.types()[4].section_id, 2);
    assert_eq!(c.products()[5].name, "TINTO");
}

#[test]
fn a_name_with_a_comma_does_not_survive_the_text() {
    let mut c = Catalog::new();
    let s = c.create_section("Frios, latic\u{ed}nios".to_string()).unwrap();
    let t = c.create_type("Queijo".to_string(), s).unwrap();
    let p = c.create_product("Minas".to_string(), t).unwrap();
    c.create_batch(p, "2025-01-01".to_string(), 4, 2).unwrap();
    let text = c.export();
    assert_eq!(c.import(&text), Ok(ImportSummary { imported: 1, skipped: 0 }));
    assert_eq!(c.sections()[0].name, "Frios");
    assert_eq!(c.types()[0].name, "latic\u{ed}nios");
    assert_eq!(c.products()[0].name, "QUEIJO");
    assert_eq!(c.batches()[0].expiry_date, "MINAS");
    assert_eq!(c.batches()[0].total_quantity, 0);
    assert_eq!(c.batches()[0].shelf_quantity, 4);
}

#[test]
fn a_row_that_cannot_be_stored_leaves_what_was_created_for_it() {
    let mut c = Catalog::from_tables(
        vec![Section { id: 1, name: "A".to_string() }],
        vec![Type { id: i64::MAX, name: "T".to_string(), section_id: 1 }],
        Vec::new(),
        Vec::new(),
    )
    .ok()
    .unwrap();
    assert_eq!(
        c.load_row(&row("Nova", "Tipo", "p", "2025-01-01", 1, 1)),
        Err(StoreError::StorageFailure)
    );
    assert_eq!(c.sections().len(), 2);
    assert_eq!(c.sections()[1].name, "Nova");
    assert_eq!(c.types().len(), 1);
    assert!(c.products().is_empty());
    assert!(c.batches().is_empty());
    assert_eq!(c.load_row(&row("A", "T", "p", "2025-01-01", 1, 1)), Ok(()));
    assert_eq!(c.products()[0].type_id, i64::MAX);
    assert_eq!(c.batches().len(), 1);
}
