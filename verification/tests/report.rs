use inventory::catalog::Catalog;
use inventory::report::{batch_leaf, stock_among, stock_of_product, NodeKind, ReportNode};
use inventory::rows::{Batch, Product};

fn stocked() -> Catalog {
    let mut c = Catalog::new();
    let s1 = c.create_section("Limpeza".to_string()).unwrap();
    let s2 = c.create_section("Bebidas".to_string()).unwrap();
    let _s3 = c.create_section("Acougue".to_string()).unwrap();
    let t1 = c.create_type("Sabao".to_string(), s1).unwrap();
    let t2 = c.create_type("Suco".to_string(), s2).unwrap();
    let t3 = c.create_type("Refrigerante".to_string(), s2).unwrap();
    let _t4 = c.create_type("Cerveja".to_string(), s2).unwrap();
    let p1 = c.create_product("Omo".to_string(), t1).unwrap();
    let p2 = c.create_product("Uva".to_string(), t2).unwrap();
    let p3 = c.create_product("Pepsi".to_string(), t3).unwrap();
    let p4 = c.create_product("Coca-Cola".to_string(), t3).unwrap();
    let _p5 = c.create_product("Fanta".to_string(), t3).unwrap();
    c.create_batch(p1, "2026-03-01".to_string(), 7, 7).unwrap();
    c.create_batch(p4, "2025-06-01".to_string(), 100, 30).unwrap();
    c.create_batch(p2, "2025-02-01".to_string(), 12, 0).unwrap();
    c.create_batch(p3, "2025-04-01".to_string(), 48, 24).unwrap();
    c.create_batch(p4, "2025-01-01".to_string(), 60, 60).unwrap();
    c
}

fn check_sums(n: &ReportNode) {
    assert_eq!(n.surplus, n.total - n.on_shelf);
    if n.kind != NodeKind::Batch {
        assert_eq!(n.total, n.children.iter().map(|c| c.total).sum::<i128>());
        assert_eq!(n.on_shelf, n.children.iter().map(|c| c.on_shelf).sum::<i128>());
        assert_eq!(n.surplus, n.children.iter().map(|c| c.surplus).sum::<i128>());
    } else {
        assert!(n.children.is_empty());
    }
    for c in &n.children {
        check_sums(c);
    }
}

#[test]
fn report_of_an_empty_catalog_is_empty() {
    assert!(Catalog::new().produce_report().is_empty());
}

#[test]
fn report_mirrors_the_catalog_by_name() {
    let r = stocked().produce_report();
    let sections: Vec<(&str, i64, NodeKind)> =
        r.iter().map(|n| (n.name.as_str(), n.id, n.kind)).collect();
    assert_eq!(
        sections,
        vec![
            ("Acougue", 3, NodeKind::Section),
            ("Bebidas", 2, NodeKind::Section),
            ("Limpeza", 1, NodeKind::Section)
        ]
    );
    let types: Vec<(&str, i64, NodeKind)> =
        r[1].children.iter().map(|n| (n.name.as_str(), n.id, n.kind)).collect();
    assert_eq!(
        types,
        vec![
            ("Cerveja", 4, NodeKind::Type),
            ("Refrigerante", 3, NodeKind::Type),
            ("Suco", 2, NodeKind::Type)
        ]
    );
    let products: Vec<(&str, i64, NodeKind)> =
        r[1].children[1].children.iter().map(|n| (n.name.as_str(), n.id, n.kind)).collect();
    assert_eq!(
        products,
        vec![
            ("COCA-COLA", 4, NodeKind::Product),
            ("FANTA", 5, NodeKind::Product),
            ("PEPSI", 3, NodeKind::Product)
        ]
    );
    let batches: Vec<(&str, i64, NodeKind)> = r[1].children[1].children[0]
        .children
        .iter()
        .map(|n| (n.name.as_str(), n.id, n.kind))
        .collect();
    assert_eq!(
        batches,
        vec![("Batch 2025-01-01", 5, NodeKind::Batch), ("Batch 2025-06-01", 2, NodeKind::Batch)]
    );
}

#[test]
fn report_adds_up_the_batches_below_each_node() {
    let r = stocked().produce_report();
    let bebidas = &r[1];
    assert_eq!((bebidas.total, bebidas.on_shelf, bebidas.surplus), (220, 114, 106));
    let refrigerante = &bebidas.children[1];
    assert_eq!((refrigerante.total, refrigerante.on_shelf, refrigerante.surplus), (208, 114, 94));
    let coca = &refrigerante.children[0];
    assert_eq!((coca.total, coca.on_shelf, coca.surplus), (160, 90, 70));
    let first = &coca.children[0];
    assert_eq!((first.total, first.on_shelf, first.surplus), (60, 60, 0));
    let second = &coca.children[1];
    assert_eq!((second.total, second.on_shelf, second.surplus), (100, 30, 70));
    let suco = &bebidas.children[2];
    assert_eq!((suco.total, suco.on_shelf, suco.surplus), (12, 0, 12));
    let limpeza = &r[2];
    assert_eq!((limpeza.total, limpeza.on_shelf, limpeza.surplus), (7, 7, 0));
}

#[test]
fn report_shows_what_has_no_batch_with_zero_quantities() {
    let r = stocked().produce_report();
    let acougue = &r[0];
    assert_eq!((acougue.total, acougue.on_shelf, acougue.surplus), (0, 0, 0));
    assert!(acougue.children.is_empty());
    let cerveja = &r[1].children[0];
    assert_eq!((cerveja.total, cerveja.on_shelf, cerveja.surplus), (0, 0, 0));
    assert!(cerveja.children.is_empty());
    let fanta = &r[1].children[1].children[1];
    assert_eq!((fanta.total, fanta.on_shelf, fanta.surplus), (0, 0, 0));
    assert!(fanta.children.is_empty());
}

#[test]
fn every_node_holds_the_sum_of_its_children() {
    for n in &stocked().produce_report() {
        check_sums(n);
    }
}

#[test]
fn product_total_is_the_sum_over_its_batches() {
    let c = stocked();
    for section in c.produce_report() {
        for kind in section.children {
            for product in kind.children {
                let total: i128 = c
                    .batches()
                    .iter()
                    .filter(|b| b.product_id == product.id)
                    .map(|b| b.total_quantity as i128)
                    .sum();
                assert_eq!(product.total, total);
            }
        }
    }
}

#[test]
fn surplus_is_negative_where_the_shelf_is_overfull() {
    let mut c = stocked();
    c.set_shelf_quantity(3, 20);
    let r = c.produce_report();
    let suco = &r[1].children[2];
    assert_eq!((suco.total, suco.on_shelf, suco.surplus), (12, 20, -8));
    assert_eq!(suco.children[0].children[0].surplus, -8);
    assert_eq!(r[1].surplus, 220 - 134);
}

#[test]
fn report_adds_up_the_largest_quantities() {
    let mut c = Catalog::new();
    let s = c.create_section("S".to_string()).unwrap();
    let t = c.create_type("T".to_string(), s).unwrap();
    let p = c.create_product("P".to_string(), t).unwrap();
    for _ in 0..3 {
        c.create_batch(p, "2025-01-01".to_string(), u32::MAX, u32::MAX).unwrap();
    }
    let r = c.produce_report();
    assert_eq!(r[0].total, 3 * 4294967295i128);
    assert_eq!(r[0].on_shelf, 12884901885i128);
    assert_eq!(r[0].surplus, 0);
}

#[test]
fn single_nodes_can_be_asked_for() {
    let c = stocked();
    let n = c.product_report(&c.products()[3]);
    assert_eq!((n.id, n.name.as_str(), n.total, n.on_shelf), (4, "COCA-COLA", 160, 90));
    let n = c.type_report(&c.types()[2]);
    assert_eq!((n.id, n.name.as_str(), n.total, n.children.len()), (3, "Refrigerante", 208, 3));
    let n = c.section_report(&c.sections()[1]);
    assert_eq!((n.id, n.name.as_str(), n.total, n.children.len()), (2, "Bebidas", 220, 3));
}

#[test]
fn batch_leaf_is_named_by_its_expiry_date() {
    let b = Batch {
        id: 8,
        product_id: 1,
        expiry_date: "2030-12-31".to_string(),
        total_quantity: 9,
        shelf_quantity: 4,
    };
    let n = batch_leaf(&b);
    assert_eq!(
        n,
        ReportNode {
            id: 8,
            name: "Batch 2030-12-31".to_string(),
            kind: NodeKind::Batch,
            total: 9,
            on_shelf: 4,
            surplus: 5,
            children: Vec::new(),
        }
    );
}

#[test]
fn stock_is_added_up_over_the_batches_of_the_given_products() {
    let c = stocked();
    assert_eq!(stock_of_product(c.batches(), 4), (160, 90));
    assert_eq!(stock_of_product(c.batches(), 5), (0, 0));
    let some = vec![
        Product { id: 4, name: "X".to_string(), type_id: 0 },
        Product { id: 1, name: "Y".to_string(), type_id: 0 },
    ];
    assert_eq!(stock_among(c.batches(), &some), (167, 97));
    assert_eq!(stock_among(c.batches(), &Vec::new()), (0, 0));
}
