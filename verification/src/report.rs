//! The rollup report: a tree that mirrors the catalog, each node with the
//! total, the shelf quantity and the surplus of the batches below it.

use vstd::prelude::*;
use vstd::string::StringExecFns;
use crate::catalog::{Catalog, CatalogView};
use crate::rows::{views, Batch, BatchView, Product, ProductView, Section, SectionView, Type, TypeView};
use crate::table::{find_id, keep_owned_among, owned_by, owner_among, select_owned_by};

verus! {

/// The level of the catalog that a node of the report stands for.
#[derive(Debug, Clone, Copy, PartialEq, Eq, Structural)]
pub enum NodeKind {
    Section,
    Type,
    Product,
    Batch,
}

/// A node of the report. `total` and `on_shelf` add up the batches below
/// the node, `surplus` is their difference, and `children` are the nodes of
/// the next level; a batch node has none.
#[derive(Debug, PartialEq, Eq)]
pub struct ReportNode {
    pub id: i64,
    pub name: String,
    pub kind: NodeKind,
    pub total: i128,
    pub on_shelf: i128,
    pub surplus: i128,
    pub children: Vec<ReportNode>,
}

pub struct ReportNodeView {
    pub id: i64,
    pub name: Seq<char>,
    pub kind: NodeKind,
    pub total: int,
    pub on_shelf: int,
    pub surplus: int,
    pub children: Seq<ReportNodeView>,
}

impl View for ReportNode {
    type V = ReportNodeView;

    open spec fn view(&self) -> ReportNodeView
        decreases self,
    {
        ReportNodeView {
            id: self.id,
            name: self.name@,
            kind: self.kind,
            total: self.total as int,
            on_shelf: self.on_shelf as int,
            surplus: self.surplus as int,
            children: Seq::new(
                self.children@.len(),
                |i: int|
                    if 0 <= i < self.children@.len() {
                        self.children@[i]@
                    } else {
                        arbitrary()
                    },
            ),
        }
    }
}

/// The views of a list of nodes.
pub open spec fn node_views(s: Seq<ReportNode>) -> Seq<ReportNodeView> {
    Seq::new(s.len(), |i: int| s[i]@)
}

/// The total quantities of the given batches, added up.
pub open spec fn sum_total(bs: Seq<BatchView>) -> int
    decreases bs.len(),
{
    if bs.len() == 0 {
        0
    } else {
        sum_total(bs.drop_last()) + bs.last().total_quantity
    }
}

/// The shelf quantities of the given batches, added up.
pub open spec fn sum_shelf(bs: Seq<BatchView>) -> int
    decreases bs.len(),
{
    if bs.len() == 0 {
        0
    } else {
        sum_shelf(bs.drop_last()) + bs.last().shelf_quantity
    }
}

/// The word that the name of a batch node begins with.
pub open spec fn batch_word() -> Seq<char> {
    seq!['B', 'a', 't', 'c', 'h', ' ']
}

/// The node of a batch: a leaf, named by the word "Batch" and the expiry
/// date.
pub open spec fn batch_node(b: BatchView) -> ReportNodeView {
    ReportNodeView {
        id: b.id,
        name: batch_word() + b.expiry_date,
        kind: NodeKind::Batch,
        total: b.total_quantity as int,
        on_shelf: b.shelf_quantity as int,
        surplus: b.total_quantity - b.shelf_quantity,
        children: Seq::empty(),
    }
}

/// A node above the batches `below`, with the given children.
pub open spec fn rollup(
    id: i64,
    name: Seq<char>,
    kind: NodeKind,
    below: Seq<BatchView>,
    children: Seq<ReportNodeView>,
) -> ReportNodeView {
    ReportNodeView {
        id,
        name,
        kind,
        total: sum_total(below),
        on_shelf: sum_shelf(below),
        surplus: sum_total(below) - sum_shelf(below),
        children,
    }
}

impl CatalogView {
    /// The batches of the product `id`.
    pub open spec fn batches_of_product(self, id: i64) -> Seq<BatchView> {
        self.batches.filter(owned_by(id))
    }

    /// The batches of the products of the type `id`.
    pub open spec fn batches_of_type(self, id: i64) -> Seq<BatchView> {
        self.batches.filter(owner_among(self.products.filter(owned_by(id))))
    }

    /// The batches of the products of the types of the section `id`.
    pub open spec fn batches_of_section(self, id: i64) -> Seq<BatchView> {
        self.batches.filter(
            owner_among(self.products.filter(owner_among(self.types.filter(owned_by(id))))),
        )
    }

    /// The node of a product: above its batches, which are its children by
    /// expiry date.
    pub open spec fn product_node(self, p: ProductView) -> ReportNodeView {
        rollup(
            p.id,
            p.name,
            NodeKind::Product,
            self.batches_of_product(p.id),
            self.list_batches(p.id).map_values(|b: BatchView| batch_node(b)),
        )
    }

    /// The node of a type: above the batches of its products, which are its
    /// children by name.
    pub open spec fn type_node(self, t: TypeView) -> ReportNodeView {
        rollup(
            t.id,
            t.name,
            NodeKind::Type,
            self.batches_of_type(t.id),
            self.list_products(t.id).map_values(|p: ProductView| self.product_node(p)),
        )
    }

    /// The node of a section: above the batches of the products of its
    /// types, which are its children by name.
    pub open spec fn section_node(self, s: SectionView) -> ReportNodeView {
        rollup(
            s.id,
            s.name,
            NodeKind::Section,
            self.batches_of_section(s.id),
            self.list_types(s.id).map_values(|t: TypeView| self.type_node(t)),
        )
    }

    /// The report: the nodes of the sections by name. A section, type or
    /// product without batches has a node with zero quantities.
    pub open spec fn report(self) -> Seq<ReportNodeView> {
        self.list_sections().map_values(|s: SectionView| self.section_node(s))
    }
}

/// The quantities of a selection of batches stay below what as many batches
/// can hold at most.
pub proof fn lemma_sums_bounded(bs: Seq<BatchView>)
    ensures
        0 <= sum_total(bs) <= bs.len() * 0xFFFF_FFFF,
        0 <= sum_shelf(bs) <= bs.len() * 0xFFFF_FFFF,
    decreases bs.len(),
{
    if bs.len() > 0 {
        lemma_sums_bounded(bs.drop_last());
    }
}

/// Adds up the quantities of the batches whose product is among `products`.
pub fn stock_among(batches: &Vec<Batch>, products: &Vec<Product>) -> (r: (i128, i128))
    ensures
        r.0 == sum_total(views(batches@).filter(owner_among(views(products@)))),
        r.1 == sum_shelf(views(batches@).filter(owner_among(views(products@)))),
{
    let mut total: i128 = 0;
    let mut shelf: i128 = 0;
    let mut i: usize = 0;
    let ghost v = views(batches@);
    let ghost test = owner_among::<BatchView, ProductView>(views(products@));
    proof {
        reveal(Seq::filter);
        assert(v.take(0) =~= Seq::<BatchView>::empty());
    }
    while i < batches.len()
        invariant
            i <= batches.len(),
            v == views(batches@),
            test == owner_among::<BatchView, ProductView>(views(products@)),
            total == sum_total(v.take(i as int).filter(test)),
            shelf == sum_shelf(v.take(i as int).filter(test)),
            v.take(i as int).filter(test).len() <= i,
        decreases batches.len() - i,
    {
        proof {
            assert(v.take(i + 1) =~= v.take(i as int).push(v[i as int]));
            v.take(i as int).lemma_filter_push(v[i as int], test);
            lemma_sums_bounded(v.take(i as int).filter(test));
            assert(v.take(i as int).filter(test).push(v[i as int]).drop_last() =~= v.take(
                i as int,
            ).filter(test));
            assert(v.take(i as int).filter(test).len() * 0xFFFF_FFFF <= i * 0xFFFF_FFFF)
                by (nonlinear_arith)
                requires
                    v.take(i as int).filter(test).len() <= i,
            ;
        }
        if find_id(products, batches[i].product_id).is_some() {
            total = total + batches[i].total_quantity as i128;
            shelf = shelf + batches[i].shelf_quantity as i128;
        }
        i += 1;
    }
    assert(v.take(batches.len() as int) =~= v);
    (total, shelf)
}

/// Adds up the quantities of the batches of one product.
pub fn stock_of_product(batches: &Vec<Batch>, product_id: i64) -> (r: (i128, i128))
    ensures
        r.0 == sum_total(views(batches@).filter(owned_by(product_id))),
        r.1 == sum_shelf(views(batches@).filter(owned_by(product_id))),
{
    let mut total: i128 = 0;
    let mut shelf: i128 = 0;
    let mut i: usize = 0;
    let ghost v = views(batches@);
    let ghost test = owned_by::<BatchView>(product_id);
    proof {
        reveal(Seq::filter);
        assert(v.take(0) =~= Seq::<BatchView>::empty());
    }
    while i < batches.len()
        invariant
            i <= batches.len(),
            v == views(batches@),
            test == owned_by::<BatchView>(product_id),
            total == sum_total(v.take(i as int).filter(test)),
            shelf == sum_shelf(v.take(i as int).filter(test)),
            v.take(i as int).filter(test).len() <= i,
        decreases batches.len() - i,
    {
        proof {
            assert(v.take(i + 1) =~= v.take(i as int).push(v[i as int]));
            v.take(i as int).lemma_filter_push(v[i as int], test);
            lemma_sums_bounded(v.take(i as int).filter(test));
            assert(v.take(i as int).filter(test).push(v[i as int]).drop_last() =~= v.take(
                i as int,
            ).filter(test));
            assert(v.take(i as int).filter(test).len() * 0xFFFF_FFFF <= i * 0xFFFF_FFFF)
                by (nonlinear_arith)
                requires
                    v.take(i as int).filter(test).len() <= i,
            ;
        }
        if batches[i].product_id == product_id {
            total = total + batches[i].total_quantity as i128;
            shelf = shelf + batches[i].shelf_quantity as i128;
        }
        i += 1;
    }
    assert(v.take(batches.len() as int) =~= v);
    (total, shelf)
}

/// The node of a batch.
pub fn batch_leaf(b: &Batch) -> (n: ReportNode)
    ensures
        n@ == batch_node(b@),
{
    let mut name = String::from_str("Batch ");
    proof {
        reveal_strlit("Batch ");
        assert(name@ =~= batch_word());
    }
    name.append(b.expiry_date.as_str());
    let n = ReportNode {
        id: b.id,
        name,
        kind: NodeKind::Batch,
        total: b.total_quantity as i128,
        on_shelf: b.shelf_quantity as i128,
        surplus: b.total_quantity as i128 - b.shelf_quantity as i128,
        children: Vec::new(),
    };
    assert(n@.children =~= Seq::empty());
    n
}

impl Catalog {
    /// The node of a product.
    pub fn product_report(&self, p: &Product) -> (n: ReportNode)
        ensures
            n@ == self@.product_node(p@),
    {
        let batches = self.list_batches(p.id);
        let mut children: Vec<ReportNode> = Vec::new();
        let mut i: usize = 0;
        while i < batches.len()
            invariant
                i <= batches.len(),
                children.len() == i,
                forall|j: int| 0 <= j < i ==> (#[trigger] children@[j])@ == batch_node(batches@[j]@),
            decreases batches.len() - i,
        {
            children.push(batch_leaf(&batches[i]));
            i += 1;
        }
        let (total, on_shelf) = stock_of_product(&self.batches, p.id);
        proof {
            lemma_sums_bounded(self@.batches_of_product(p@.id));
        }
        let n = ReportNode {
            id: p.id,
            name: p.name.clone(),
            kind: NodeKind::Product,
            total,
            on_shelf,
            surplus: total - on_shelf,
            children,
        };
        proof {
            assert(n@.children =~= self@.list_batches(p@.id).map_values(
                |b: BatchView| batch_node(b),
            ));
        }
        n
    }

    /// The node of a type.
    pub fn type_report(&self, t: &Type) -> (n: ReportNode)
        ensures
            n@ == self@.type_node(t@),
    {
        let products = self.list_products(t.id);
        let mut children: Vec<ReportNode> = Vec::new();
        let mut i: usize = 0;
        while i < products.len()
            invariant
                i <= products.len(),
                children.len() == i,
                forall|j: int|
                    0 <= j < i ==> (#[trigger] children@[j])@ == self@.product_node(products@[j]@),
            decreases products.len() - i,
        {
            children.push(self.product_report(&products[i]));
            i += 1;
        }
        let own = select_owned_by(&self.products, t.id);
        let (total, on_shelf) = stock_among(&self.batches, &own);
        proof {
            lemma_sums_bounded(self@.batches_of_type(t@.id));
        }
        let n = ReportNode {
            id: t.id,
            name: t.name.clone(),
            kind: NodeKind::Type,
            total,
            on_shelf,
            surplus: total - on_shelf,
            children,
        };
        proof {
            assert(n@.children =~= self@.list_products(t@.id).map_values(
                |p: ProductView| self@.product_node(p),
            ));
        }
        n
    }

    /// The node of a section.
    pub fn section_report(&self, s: &Section) -> (n: ReportNode)
        ensures
            n@ == self@.section_node(s@),
    {
        let types = self.list_types(s.id);
        let mut children: Vec<ReportNode> = Vec::new();
        let mut i: usize = 0;
        while i < types.len()
            invariant
                i <= types.len(),
                children.len() == i,
                forall|j: int|
                    0 <= j < i ==> (#[trigger] children@[j])@ == self@.type_node(types@[j]@),
            decreases types.len() - i,
        {
            children.push(self.type_report(&types[i]));
            i += 1;
        }
        let own_types = select_owned_by(&self.types, s.id);
        let own = keep_owned_among(&self.products, &own_types);
        let (total, on_shelf) = stock_among(&self.batches, &own);
        proof {
            lemma_sums_bounded(self@.batches_of_section(s@.id));
        }
        let n = ReportNode {
            id: s.id,
            name: s.name.clone(),
            kind: NodeKind::Section,
            total,
            on_shelf,
            surplus: total - on_shelf,
            children,
        };
        proof {
            assert(n@.children =~= self@.list_types(s@.id).map_values(
                |t: TypeView| self@.type_node(t),
            ));
        }
        n
    }

    /// The report of the whole catalog: one node for each section, by name,
    /// with the nodes of its types, their products and their batches below
    /// it.
    pub fn produce_report(&self) -> (r: Vec<ReportNode>)
        ensures
            node_views(r@) == self@.report(),
    {
        let sections = self.list_sections();
        let mut out: Vec<ReportNode> = Vec::new();
        let mut i: usize = 0;
        while i < sections.len()
            invariant
                i <= sections.len(),
                out.len() == i,
                forall|j: int|
                    0 <= j < i ==> (#[trigger] out@[j])@ == self@.section_node(sections@[j]@),
            decreases sections.len() - i,
        {
            out.push(self.section_report(&sections[i]));
            i += 1;
        }
        assert(node_views(out@) =~= self@.report());
        out
    }
}

} // verus!
