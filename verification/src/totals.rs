//! Why the quantities of the report add up: the total of a node is the sum
//! of the totals of its children, on every level.

use vstd::prelude::*;
use crate::catalog::CatalogView;
use crate::order::{place, sorted};
use crate::report::{batch_node, sum_shelf, sum_total, ReportNodeView};
use crate::rows::{BatchView, Keyed, ProductView, SectionView, TypeView};
use crate::table::{
    has_id, lemma_filter_has_member, lemma_filter_is_member,
    lemma_filter_keeps_distinct, owned_by, owner_among,
};

verus! {

/// The totals of the given nodes, added up.
pub open spec fn sum_node_totals(nodes: Seq<ReportNodeView>) -> int
    decreases nodes.len(),
{
    if nodes.len() == 0 {
        0
    } else {
        sum_node_totals(nodes.drop_last()) + nodes.last().total
    }
}

/// The shelf quantities of the given nodes, added up.
pub open spec fn sum_node_shelf(nodes: Seq<ReportNodeView>) -> int
    decreases nodes.len(),
{
    if nodes.len() == 0 {
        0
    } else {
        sum_node_shelf(nodes.drop_last()) + nodes.last().on_shelf
    }
}

/// The total quantity of a batch, or its shelf quantity.
pub open spec fn measure(shelf: bool) -> spec_fn(BatchView) -> int {
    |b: BatchView|
        if shelf {
            b.shelf_quantity as int
        } else {
            b.total_quantity as int
        }
}

/// A measure of the given batches, added up.
pub open spec fn sum_of(bs: Seq<BatchView>, m: spec_fn(BatchView) -> int) -> int
    decreases bs.len(),
{
    if bs.len() == 0 {
        0
    } else {
        sum_of(bs.drop_last(), m) + m(bs.last())
    }
}

/// For each of `keys` the sum of a measure over the batches that its test
/// selects, all added up.
pub open spec fn sum_by_group<K>(
    keys: Seq<K>,
    part: spec_fn(K) -> spec_fn(BatchView) -> bool,
    bs: Seq<BatchView>,
    m: spec_fn(BatchView) -> int,
) -> int
    decreases keys.len(),
{
    if keys.len() == 0 {
        0
    } else {
        sum_by_group(keys.drop_last(), part, bs, m) + sum_of(bs.filter(part(keys.last())), m)
    }
}

/// Some key's test selects the batch `b`.
pub open spec fn in_some_group<K>(
    keys: Seq<K>,
    part: spec_fn(K) -> spec_fn(BatchView) -> bool,
    b: BatchView,
) -> bool {
    exists|i: int| 0 <= i < keys.len() && part(#[trigger] keys[i])(b)
}

/// No two keys' tests select the batch `b`.
pub open spec fn in_one_group_at_most<K>(
    keys: Seq<K>,
    part: spec_fn(K) -> spec_fn(BatchView) -> bool,
    b: BatchView,
) -> bool {
    forall|i: int, j: int|
        0 <= i < j < keys.len() ==> !(part(#[trigger] keys[i])(b) && part(#[trigger] keys[j])(b))
}

/// The two sums of quantities are sums of measures.
pub proof fn lemma_sums_are_measures(bs: Seq<BatchView>)
    ensures
        sum_total(bs) == sum_of(bs, measure(false)),
        sum_shelf(bs) == sum_of(bs, measure(true)),
    decreases bs.len(),
{
    if bs.len() > 0 {
        lemma_sums_are_measures(bs.drop_last());
    }
}

/// One more batch adds its measure to the sum of the selection if the test
/// selects it.
pub proof fn lemma_sum_of_filter_push(
    bs: Seq<BatchView>,
    b: BatchView,
    q: spec_fn(BatchView) -> bool,
    m: spec_fn(BatchView) -> int,
)
    ensures
        sum_of(bs.push(b).filter(q), m) == sum_of(bs.filter(q), m) + if q(b) {
            m(b)
        } else {
            0
        },
{
    bs.lemma_filter_push(b, q);
    if q(b) {
        assert(bs.filter(q).push(b).drop_last() =~= bs.filter(q));
    }
}

/// One more batch adds its measure to the grouped sum if it falls in a
/// group, given that it falls in one group at most.
proof fn lemma_sum_by_group_push<K>(
    keys: Seq<K>,
    part: spec_fn(K) -> spec_fn(BatchView) -> bool,
    bs: Seq<BatchView>,
    b: BatchView,
    m: spec_fn(BatchView) -> int,
)
    requires
        in_one_group_at_most(keys, part, b),
    ensures
        sum_by_group(keys, part, bs.push(b), m) == sum_by_group(keys, part, bs, m) + if in_some_group(
            keys,
            part,
            b,
        ) {
            m(b)
        } else {
            0
        },
    decreases keys.len(),
{
    if keys.len() > 0 {
        let rest = keys.drop_last();
        let k = keys.last();
        assert forall|i: int, j: int| 0 <= i < j < rest.len() implies !(part(#[trigger] rest[i])(b)
            && part(#[trigger] rest[j])(b)) by {
            assert(rest[i] == keys[i] && rest[j] == keys[j]);
        }
        lemma_sum_by_group_push(rest, part, bs, b, m);
        lemma_sum_of_filter_push(bs, b, part(k), m);
        if in_some_group(rest, part, b) {
            let i = choose|i: int| 0 <= i < rest.len() && part(#[trigger] rest[i])(b);
            assert(rest[i] == keys[i]);
            assert(part(keys[i])(b));
            assert(keys[keys.len() - 1] == k);
            assert(!part(k)(b));
        }
        if in_some_group(keys, part, b) {
            let i = choose|i: int| 0 <= i < keys.len() && part(#[trigger] keys[i])(b);
            if i < rest.len() {
                assert(rest[i] == keys[i]);
                assert(part(rest[i])(b));
            }
        } else {
            assert(keys[keys.len() - 1] == k);
        }
    }
}

/// Where the groups do not overlap and together make up a selection, the
/// sums of the groups add up to the sum of the selection.
pub proof fn lemma_groups_add_up<K>(
    keys: Seq<K>,
    part: spec_fn(K) -> spec_fn(BatchView) -> bool,
    whole: spec_fn(BatchView) -> bool,
    bs: Seq<BatchView>,
    m: spec_fn(BatchView) -> int,
)
    requires
        forall|n: int| 0 <= n < bs.len() ==> in_one_group_at_most(keys, part, #[trigger] bs[n]),
        forall|n: int|
            0 <= n < bs.len() ==> (whole(#[trigger] bs[n]) <==> in_some_group(keys, part, bs[n])),
    ensures
        sum_by_group(keys, part, bs, m) == sum_of(bs.filter(whole), m),
    decreases bs.len(),
{
    reveal(Seq::filter);
    if bs.len() == 0 {
        assert(bs =~= Seq::<BatchView>::empty());
        lemma_sum_by_group_of_none(keys, part, m);
    } else {
        let rest = bs.drop_last();
        let b = bs.last();
        assert forall|n: int| 0 <= n < rest.len() implies in_one_group_at_most(
            keys,
            part,
            #[trigger] rest[n],
        ) && (whole(rest[n]) <==> in_some_group(keys, part, rest[n])) by {
            assert(rest[n] == bs[n]);
        }
        lemma_groups_add_up(keys, part, whole, rest, m);
        assert(rest.push(b) =~= bs);
        assert(bs[bs.len() - 1] == b);
        lemma_sum_by_group_push(keys, part, rest, b, m);
        lemma_sum_of_filter_push(rest, b, whole, m);
    }
}

/// Without batches every group is empty.
proof fn lemma_sum_by_group_of_none<K>(
    keys: Seq<K>,
    part: spec_fn(K) -> spec_fn(BatchView) -> bool,
    m: spec_fn(BatchView) -> int,
)
    ensures
        sum_by_group(keys, part, Seq::<BatchView>::empty(), m) == 0,
    decreases keys.len(),
{
    reveal(Seq::filter);
    if keys.len() > 0 {
        lemma_sum_by_group_of_none(keys.drop_last(), part, m);
        assert(Seq::<BatchView>::empty().filter(part(keys.last())) =~= Seq::<BatchView>::empty());
    }
}

/// Putting a key in its place among the others adds its group to the sum.
proof fn lemma_sum_by_group_place<K: Keyed>(
    keys: Seq<K>,
    k: K,
    part: spec_fn(K) -> spec_fn(BatchView) -> bool,
    bs: Seq<BatchView>,
    m: spec_fn(BatchView) -> int,
)
    ensures
        sum_by_group(place(keys, k), part, bs, m) == sum_by_group(keys, part, bs, m) + sum_of(
            bs.filter(part(k)),
            m,
        ),
    decreases keys.len(),
{
    if keys.len() == 0 || crate::text::text_le(keys.last().sort_key(), k.sort_key()) {
        assert(keys.push(k).drop_last() =~= keys);
    } else {
        lemma_sum_by_group_place(keys.drop_last(), k, part, bs, m);
        let r = place(keys.drop_last(), k).push(keys.last());
        assert(r.drop_last() =~= place(keys.drop_last(), k));
    }
}

/// The order of the keys does not matter to the grouped sum.
pub proof fn lemma_sum_by_group_sorted<K: Keyed>(
    keys: Seq<K>,
    part: spec_fn(K) -> spec_fn(BatchView) -> bool,
    bs: Seq<BatchView>,
    m: spec_fn(BatchView) -> int,
)
    ensures
        sum_by_group(sorted(keys), part, bs, m) == sum_by_group(keys, part, bs, m),
    decreases keys.len(),
{
    if keys.len() > 0 {
        lemma_sum_by_group_sorted(keys.drop_last(), part, bs, m);
        lemma_sum_by_group_place(sorted(keys.drop_last()), keys.last(), part, bs, m);
    }
}

/// The totals of nodes add up to the grouped sum of their keys if each node
/// holds the sum of its key's group.
proof fn lemma_nodes_hold_groups<K>(
    nodes: Seq<ReportNodeView>,
    keys: Seq<K>,
    part: spec_fn(K) -> spec_fn(BatchView) -> bool,
    bs: Seq<BatchView>,
)
    requires
        nodes.len() == keys.len(),
        forall|i: int|
            0 <= i < keys.len() ==> (#[trigger] nodes[i]).total == sum_total(
                bs.filter(part(keys[i])),
            ) && nodes[i].on_shelf == sum_shelf(bs.filter(part(keys[i]))),
    ensures
        sum_node_totals(nodes) == sum_by_group(keys, part, bs, measure(false)),
        sum_node_shelf(nodes) == sum_by_group(keys, part, bs, measure(true)),
    decreases keys.len(),
{
    if keys.len() > 0 {
        let n = nodes.drop_last();
        let k = keys.drop_last();
        assert forall|i: int| 0 <= i < k.len() implies (#[trigger] n[i]).total == sum_total(
            bs.filter(part(k[i])),
        ) && n[i].on_shelf == sum_shelf(bs.filter(part(k[i]))) by {
            assert(n[i] == nodes[i] && k[i] == keys[i]);
        }
        lemma_nodes_hold_groups(n, k, part, bs);
        assert(nodes[nodes.len() - 1].total == sum_total(bs.filter(part(keys[keys.len() - 1]))));
        lemma_sums_are_measures(bs.filter(part(keys.last())));
    }
}

/// The test on batches "it belongs to this product".
pub open spec fn of_product() -> spec_fn(ProductView) -> spec_fn(BatchView) -> bool {
    |p: ProductView| owned_by::<BatchView>(p.id)
}

/// The test on batches "its product belongs to this type", for the given
/// table of products.
pub open spec fn of_type(products: Seq<ProductView>) -> spec_fn(TypeView) -> spec_fn(
    BatchView,
) -> bool {
    |t: TypeView| owner_among::<BatchView, ProductView>(products.filter(owned_by(t.id)))
}

/// The quantities of a product node are the sums over the batches of the
/// product, and the sums over the nodes of those batches.
pub proof fn law_product_totals(c: CatalogView, p: ProductView)
    ensures
        c.product_node(p).total == sum_total(c.batches.filter(owned_by(p.id))),
        c.product_node(p).on_shelf == sum_shelf(c.batches.filter(owned_by(p.id))),
        c.product_node(p).total == sum_node_totals(c.product_node(p).children),
        c.product_node(p).on_shelf == sum_node_shelf(c.product_node(p).children),
{
    let bs = c.batches.filter(owned_by(p.id));
    lemma_leaves_add_up(bs);
}

/// The nodes of batches listed by expiry date hold together what the
/// batches hold.
proof fn lemma_leaves_add_up(bs: Seq<BatchView>)
    ensures
        sum_node_totals(sorted(bs).map_values(|b: BatchView| batch_node(b))) == sum_total(bs),
        sum_node_shelf(sorted(bs).map_values(|b: BatchView| batch_node(b))) == sum_shelf(bs),
    decreases bs.len(),
{
    let f = |b: BatchView| batch_node(b);
    if bs.len() == 0 {
        assert(sorted(bs).map_values(f) =~= Seq::<ReportNodeView>::empty());
    } else {
        lemma_leaves_add_up(bs.drop_last());
        lemma_leaves_place(sorted(bs.drop_last()), bs.last());
    }
}

/// Putting a batch in its place among the others adds its node's
/// quantities to the sums.
proof fn lemma_leaves_place(bs: Seq<BatchView>, b: BatchView)
    ensures
        sum_node_totals(place(bs, b).map_values(|b: BatchView| batch_node(b))) == sum_node_totals(
            bs.map_values(|b: BatchView| batch_node(b)),
        ) + b.total_quantity,
        sum_node_shelf(place(bs, b).map_values(|b: BatchView| batch_node(b))) == sum_node_shelf(
            bs.map_values(|b: BatchView| batch_node(b)),
        ) + b.shelf_quantity,
    decreases bs.len(),
{
    let f = |b: BatchView| batch_node(b);
    if bs.len() == 0 || crate::text::text_le(bs.last().sort_key(), b.sort_key()) {
        assert(bs.push(b).map_values(f).drop_last() =~= bs.map_values(f));
    } else {
        let rest = bs.drop_last();
        lemma_leaves_place(rest, b);
        let r = place(rest, b).push(bs.last());
        assert(r.map_values(f).drop_last() =~= place(rest, b).map_values(f));
        assert(bs.map_values(f).drop_last() =~= rest.map_values(f));
    }
}

/// The quantities of a type node are the sums over the batches of the
/// products of the type, and the sums over the nodes of those products.
pub proof fn law_type_totals(c: CatalogView, t: TypeView)
    requires
        c.wf(),
    ensures
        c.type_node(t).total == sum_total(c.batches_of_type(t.id)),
        c.type_node(t).on_shelf == sum_shelf(c.batches_of_type(t.id)),
        c.type_node(t).total == sum_node_totals(c.type_node(t).children),
        c.type_node(t).on_shelf == sum_node_shelf(c.type_node(t).children),
{
    let own = c.products.filter(owned_by(t.id));
    let keys = sorted(own);
    let nodes = c.type_node(t).children;
    let part = of_product();
    let whole = owner_among::<BatchView, ProductView>(own);
    lemma_filter_keeps_distinct(c.products, owned_by(t.id));
    crate::order::lemma_sorted(own);
    assert forall|i: int| 0 <= i < keys.len() implies (#[trigger] nodes[i]).total == sum_total(
        c.batches.filter(part(keys[i])),
    ) && nodes[i].on_shelf == sum_shelf(c.batches.filter(part(keys[i]))) by {
        assert(nodes[i] == c.product_node(keys[i]));
    }
    lemma_nodes_hold_groups(nodes, keys, part, c.batches);
    assert forall|n: int| 0 <= n < c.batches.len() implies in_one_group_at_most(
        own,
        part,
        #[trigger] c.batches[n],
    ) && (whole(c.batches[n]) <==> in_some_group(own, part, c.batches[n])) by {
        let b = c.batches[n];
        assert forall|i: int, j: int| 0 <= i < j < own.len() implies !(part(#[trigger] own[i])(b)
            && part(#[trigger] own[j])(b)) by {
            assert(own[i].ident() != own[j].ident());
        }
        if whole(b) {
            let i = choose|i: int| 0 <= i < own.len() && (#[trigger] own[i]).ident() == b.product_id;
            assert(part(own[i])(b));
        }
        if in_some_group(own, part, b) {
            let i = choose|i: int| 0 <= i < own.len() && part(#[trigger] own[i])(b);
            assert(own[i].ident() == b.product_id);
        }
    }
    lemma_groups_add_up(own, part, whole, c.batches, measure(false));
    lemma_groups_add_up(own, part, whole, c.batches, measure(true));
    lemma_sum_by_group_sorted(own, part, c.batches, measure(false));
    lemma_sum_by_group_sorted(own, part, c.batches, measure(true));
    lemma_sums_are_measures(c.batches.filter(whole));
}

/// The quantities of a section node are the sums over the batches of the
/// products of the types of the section, and the sums over the nodes of
/// those types.
pub proof fn law_section_totals(c: CatalogView, s: SectionView)
    requires
        c.wf(),
    ensures
        c.section_node(s).total == sum_total(c.batches_of_section(s.id)),
        c.section_node(s).on_shelf == sum_shelf(c.batches_of_section(s.id)),
        c.section_node(s).total == sum_node_totals(c.section_node(s).children),
        c.section_node(s).on_shelf == sum_node_shelf(c.section_node(s).children),
{
    let own = c.types.filter(owned_by(s.id));
    let keys = sorted(own);
    let nodes = c.section_node(s).children;
    let part = of_type(c.products);
    let under = c.products.filter(owner_among(own));
    let whole = owner_among::<BatchView, ProductView>(under);
    lemma_filter_keeps_distinct(c.types, owned_by(s.id));
    crate::order::lemma_sorted(own);
    assert forall|i: int| 0 <= i < keys.len() implies (#[trigger] nodes[i]).total == sum_total(
        c.batches.filter(part(keys[i])),
    ) && nodes[i].on_shelf == sum_shelf(c.batches.filter(part(keys[i]))) by {
        assert(nodes[i] == c.type_node(keys[i]));
    }
    lemma_nodes_hold_groups(nodes, keys, part, c.batches);
    assert forall|n: int| 0 <= n < c.batches.len() implies in_one_group_at_most(
        own,
        part,
        #[trigger] c.batches[n],
    ) && (whole(c.batches[n]) <==> in_some_group(own, part, c.batches[n])) by {
        let b = c.batches[n];
        assert forall|i: int, j: int| 0 <= i < j < own.len() implies !(part(#[trigger] own[i])(b)
            && part(#[trigger] own[j])(b)) by {
            if part(own[i])(b) && part(own[j])(b) {
                let pi = c.products.filter(owned_by(own[i].id));
                let pj = c.products.filter(owned_by(own[j].id));
                let x = choose|x: int| 0 <= x < pi.len() && (#[trigger] pi[x]).ident() == b.product_id;
                let y = choose|y: int| 0 <= y < pj.len() && (#[trigger] pj[y]).ident() == b.product_id;
                lemma_filter_is_member(c.products, owned_by(own[i].id), x);
                lemma_filter_is_member(c.products, owned_by(own[j].id), y);
                let a = choose|a: int| 0 <= a < c.products.len() && #[trigger] c.products[a] == pi[x];
                let e = choose|e: int| 0 <= e < c.products.len() && #[trigger] c.products[e] == pj[y];
                if a < e {
                    assert(c.products[a].ident() != c.products[e].ident());
                } else if e < a {
                    assert(c.products[e].ident() != c.products[a].ident());
                }
                assert(own[i].ident() != own[j].ident());
            }
        }
        if whole(b) {
            let x = choose|x: int| 0 <= x < under.len() && (#[trigger] under[x]).ident() == b.product_id;
            lemma_filter_is_member(c.products, owner_among(own), x);
            let i = choose|i: int| 0 <= i < own.len() && (#[trigger] own[i]).ident() == under[x].type_id;
            let a = choose|a: int| 0 <= a < c.products.len() && #[trigger] c.products[a] == under[x];
            lemma_filter_has_member(c.products, owned_by(own[i].id), a);
            let pi = c.products.filter(owned_by(own[i].id));
            let z = choose|z: int| 0 <= z < pi.len() && #[trigger] pi[z] == c.products[a];
            assert(pi[z].ident() == b.product_id);
            assert(part(own[i])(b));
        }
        if in_some_group(own, part, b) {
            let i = choose|i: int| 0 <= i < own.len() && part(#[trigger] own[i])(b);
            let pi = c.products.filter(owned_by(own[i].id));
            let x = choose|x: int| 0 <= x < pi.len() && (#[trigger] pi[x]).ident() == b.product_id;
            lemma_filter_is_member(c.products, owned_by(own[i].id), x);
            let a = choose|a: int| 0 <= a < c.products.len() && #[trigger] c.products[a] == pi[x];
            assert(has_id(own, c.products[a].type_id));
            lemma_filter_has_member(c.products, owner_among(own), a);
            let z = choose|z: int| 0 <= z < under.len() && #[trigger] under[z] == c.products[a];
            assert(under[z].ident() == b.product_id);
        }
    }
    lemma_groups_add_up(own, part, whole, c.batches, measure(false));
    lemma_groups_add_up(own, part, whole, c.batches, measure(true));
    lemma_sum_by_group_sorted(own, part, c.batches, measure(false));
    lemma_sum_by_group_sorted(own, part, c.batches, measure(true));
    lemma_sums_are_measures(c.batches.filter(whole));
}

} // verus!
