//! Listing records in the order of their names: a stable sort, stated as a
//! function on sequences and carried out by insertion.

use vstd::prelude::*;
use crate::rows::{views, lemma_views_insert, Keyed, Entry};
use crate::text::{text_le, precedes_or_equals};

verus! {

/// `s` with `x` put behind the last record that does not come after it.
pub open spec fn place<V: Keyed>(s: Seq<V>, x: V) -> Seq<V>
    decreases s.len(),
{
    if s.len() == 0 {
        s.push(x)
    } else if text_le(s.last().sort_key(), x.sort_key()) {
        s.push(x)
    } else {
        place(s.drop_last(), x).push(s.last())
    }
}

/// The records of `s` by ascending key; records with equal keys keep the
/// order they have in `s`.
pub open spec fn sorted<V: Keyed>(s: Seq<V>) -> Seq<V>
    decreases s.len(),
{
    if s.len() == 0 {
        s
    } else {
        place(sorted(s.drop_last()), s.last())
    }
}

/// No record of `s` comes after a later one.
pub open spec fn in_order<V: Keyed>(s: Seq<V>) -> bool {
    forall|i: int, j: int| 0 <= i < j < s.len() ==> text_le(#[trigger] s[i].sort_key(), #[trigger] s[j].sort_key())
}

/// Of two texts, one does not come after the other.
pub proof fn lemma_text_le_total(a: Seq<char>, b: Seq<char>)
    ensures
        text_le(a, b) || text_le(b, a),
    decreases a.len(),
{
    if a.len() > 0 && b.len() > 0 {
        if a[0] == b[0] {
            lemma_text_le_total(a.drop_first(), b.drop_first());
        }
    }
}

/// A text does not come after itself.
pub proof fn lemma_text_le_refl(a: Seq<char>)
    ensures
        text_le(a, a),
    decreases a.len(),
{
    if a.len() > 0 {
        lemma_text_le_refl(a.drop_first());
    }
}

/// Two texts neither of which comes after the other are one text.
pub proof fn lemma_text_le_antisymmetric(a: Seq<char>, b: Seq<char>)
    requires
        text_le(a, b),
        text_le(b, a),
    ensures
        a == b,
    decreases a.len(),
{
    if a.len() > 0 && b.len() > 0 {
        lemma_text_le_antisymmetric(a.drop_first(), b.drop_first());
        assert(a =~= seq![a[0]] + a.drop_first());
        assert(b =~= seq![b[0]] + b.drop_first());
    } else {
        assert(a =~= b);
    }
}

/// The order of texts is transitive.
pub proof fn lemma_text_le_trans(a: Seq<char>, b: Seq<char>, c: Seq<char>)
    requires
        text_le(a, b),
        text_le(b, c),
    ensures
        text_le(a, c),
    decreases a.len(),
{
    if a.len() > 0 && b.len() > 0 && c.len() > 0 {
        if a[0] == b[0] && b[0] == c[0] {
            lemma_text_le_trans(a.drop_first(), b.drop_first(), c.drop_first());
        }
    }
}

/// Where `place` puts a record: at the position behind which every record
/// comes after it and before which the nearest one does not.
pub proof fn lemma_place_at<V: Keyed>(s: Seq<V>, x: V, p: int)
    requires
        0 <= p <= s.len(),
        p == 0 || text_le(s[p - 1].sort_key(), x.sort_key()),
        forall|j: int| p <= j < s.len() ==> !text_le(#[trigger] s[j].sort_key(), x.sort_key()),
    ensures
        place(s, x) == s.insert(p, x),
    decreases s.len() - p,
{
    if p == s.len() {
        assert(s.push(x) =~= s.insert(p, x));
    } else {
        let t = s.drop_last();
        assert(!text_le(s[s.len() - 1].sort_key(), x.sort_key()));
        assert forall|j: int| p <= j < t.len() implies !text_le(
            #[trigger] t[j].sort_key(),
            x.sort_key(),
        ) by {
            assert(t[j] == s[j]);
        }
        lemma_place_at(t, x, p);
        assert(t.insert(p, x).push(s.last()) =~= s.insert(p, x));
    }
}

/// `place` keeps the records it is given and adds the new one.
pub proof fn lemma_place_multiset<V: Keyed>(s: Seq<V>, x: V)
    ensures
        place(s, x).to_multiset() == s.to_multiset().insert(x),
        place(s, x).len() == s.len() + 1,
    decreases s.len(),
{
    broadcast use vstd::seq_lib::group_to_multiset_ensures;

    if s.len() == 0 || text_le(s.last().sort_key(), x.sort_key()) {
    } else {
        let t = s.drop_last();
        lemma_place_multiset(t, x);
        assert(t.push(s.last()) =~= s);
        assert(place(s, x).to_multiset() =~= s.to_multiset().insert(x));
    }
}

/// `place` keeps an ordered sequence ordered.
pub proof fn lemma_place_in_order<V: Keyed>(s: Seq<V>, x: V)
    requires
        in_order(s),
    ensures
        in_order(place(s, x)),
    decreases s.len(),
{
    if s.len() == 0 {
    } else if text_le(s.last().sort_key(), x.sort_key()) {
        let r = s.push(x);
        assert forall|i: int, j: int| 0 <= i < j < r.len() implies text_le(
            #[trigger] r[i].sort_key(),
            #[trigger] r[j].sort_key(),
        ) by {
            if j == s.len() {
                if i < s.len() - 1 {
                    assert(text_le(s[i].sort_key(), s[s.len() - 1].sort_key()));
                    lemma_text_le_trans(s[i].sort_key(), s.last().sort_key(), x.sort_key());
                }
            } else {
                assert(text_le(s[i].sort_key(), s[j].sort_key()));
            }
        }
    } else {
        let t = s.drop_last();
        assert forall|i: int, j: int| 0 <= i < j < t.len() implies text_le(
            #[trigger] t[i].sort_key(),
            #[trigger] t[j].sort_key(),
        ) by {
            assert(text_le(s[i].sort_key(), s[j].sort_key()));
        }
        lemma_place_in_order(t, x);
        lemma_place_multiset(t, x);
        let q = place(t, x);
        let r = q.push(s.last());
        assert forall|i: int, j: int| 0 <= i < j < r.len() implies text_le(
            #[trigger] r[i].sort_key(),
            #[trigger] r[j].sort_key(),
        ) by {
            if j == q.len() {
                // every record of q is x or a record of t, and neither comes after s.last()
                broadcast use vstd::seq_lib::group_to_multiset_ensures;
                assert(q.to_multiset().count(q[i]) > 0);
                if q[i] == x {
                    lemma_text_le_total(s.last().sort_key(), x.sort_key());
                } else {
                    assert(t.to_multiset().count(q[i]) > 0);
                    let k = choose|k: int| 0 <= k < t.len() && t[k] == q[i];
                    assert(text_le(s[k].sort_key(), s[s.len() - 1].sort_key()));
                }
            } else {
                assert(text_le(q[i].sort_key(), q[j].sort_key()));
            }
        }
    }
}

/// The sorted sequence is ordered and holds the same records, each as often
/// as the sequence it was made from.
pub proof fn lemma_sorted<V: Keyed>(s: Seq<V>)
    ensures
        in_order(sorted(s)),
        sorted(s).to_multiset() == s.to_multiset(),
        sorted(s).len() == s.len(),
    decreases s.len(),
{
    broadcast use vstd::seq_lib::group_to_multiset_ensures;

    if s.len() > 0 {
        let t = s.drop_last();
        lemma_sorted(t);
        lemma_place_in_order(sorted(t), s.last());
        lemma_place_multiset(sorted(t), s.last());
        assert(t.push(s.last()) =~= s);
    }
}

/// A record is in the sorted sequence exactly if it is in the sequence it
/// was made from.
pub proof fn lemma_sorted_contains<V: Keyed>(s: Seq<V>, v: V)
    ensures
        sorted(s).contains(v) <==> s.contains(v),
{
    broadcast use vstd::seq_lib::group_to_multiset_ensures;

    lemma_sorted(s);
    assert(sorted(s).contains(v) <==> sorted(s).to_multiset().count(v) > 0);
    assert(s.contains(v) <==> s.to_multiset().count(v) > 0);
}

/// A record of `place(s, x)` is `x` or a record of `s`.
pub proof fn lemma_place_contains<V: Keyed>(s: Seq<V>, x: V, v: V)
    ensures
        place(s, x).contains(v) <==> v == x || s.contains(v),
{
    broadcast use vstd::seq_lib::group_to_multiset_ensures;

    lemma_place_multiset(s, x);
    assert(place(s, x).contains(v) <==> place(s, x).to_multiset().count(v) > 0);
    assert(s.contains(v) <==> s.to_multiset().count(v) > 0);
}

/// No two records of `s` are listed under the same text.
pub open spec fn distinct_keys<V: Keyed>(s: Seq<V>) -> bool {
    forall|i: int, j: int|
        0 <= i < j < s.len() ==> (#[trigger] s[i]).sort_key() != (#[trigger] s[j]).sort_key()
}

/// Putting a record with a new key in its place leaves the keys distinct.
pub proof fn lemma_place_distinct_keys<V: Keyed>(s: Seq<V>, x: V)
    requires
        distinct_keys(s),
        forall|i: int| 0 <= i < s.len() ==> (#[trigger] s[i]).sort_key() != x.sort_key(),
    ensures
        distinct_keys(place(s, x)),
    decreases s.len(),
{
    if s.len() == 0 || text_le(s.last().sort_key(), x.sort_key()) {
        let r = s.push(x);
        assert forall|i: int, j: int| 0 <= i < j < r.len() implies (#[trigger] r[i]).sort_key() != (
        #[trigger] r[j]).sort_key() by {
            if j < s.len() {
                assert(s[i].sort_key() != s[j].sort_key());
            } else {
                assert(s[i].sort_key() != x.sort_key());
            }
        }
    } else {
        let t = s.drop_last();
        let l = s.last();
        assert forall|i: int, j: int| 0 <= i < j < t.len() implies (#[trigger] t[i]).sort_key() != (
        #[trigger] t[j]).sort_key() by {
            assert(s[i].sort_key() != s[j].sort_key());
        }
        assert forall|i: int| 0 <= i < t.len() implies (#[trigger] t[i]).sort_key()
            != x.sort_key() by {
            assert(s[i].sort_key() != x.sort_key());
        }
        lemma_place_distinct_keys(t, x);
        let q = place(t, x);
        let r = q.push(l);
        assert forall|i: int, j: int| 0 <= i < j < r.len() implies (#[trigger] r[i]).sort_key() != (
        #[trigger] r[j]).sort_key() by {
            if j < q.len() {
                assert(q[i].sort_key() != q[j].sort_key());
            } else {
                lemma_place_contains(t, x, q[i]);
                assert(q.contains(q[i]));
                if q[i] == x {
                    assert(s[s.len() - 1].sort_key() != x.sort_key());
                } else {
                    let k = choose|k: int| 0 <= k < t.len() && t[k] == q[i];
                    assert(s[k].sort_key() != s[s.len() - 1].sort_key());
                }
            }
        }
    }
}

/// Sorting leaves distinct keys distinct.
pub proof fn lemma_sorted_distinct_keys<V: Keyed>(s: Seq<V>)
    requires
        distinct_keys(s),
    ensures
        distinct_keys(sorted(s)),
    decreases s.len(),
{
    if s.len() > 0 {
        let t = s.drop_last();
        assert forall|i: int, j: int| 0 <= i < j < t.len() implies (#[trigger] t[i]).sort_key() != (
        #[trigger] t[j]).sort_key() by {
            assert(s[i].sort_key() != s[j].sort_key());
        }
        lemma_sorted_distinct_keys(t);
        let q = sorted(t);
        assert forall|i: int| 0 <= i < q.len() implies (#[trigger] q[i]).sort_key()
            != s.last().sort_key() by {
            lemma_sorted_contains(t, q[i]);
            assert(q.contains(q[i]));
            let k = choose|k: int| 0 <= k < t.len() && t[k] == q[i];
            assert(s[k].sort_key() != s[s.len() - 1].sort_key());
        }
        lemma_place_distinct_keys(q, s.last());
    }
}

/// Records without a repeated key can be listed in order in one way only:
/// two ordered sequences of the same records are the same sequence.
pub proof fn law_ordered_listing_is_unique<V: Keyed>(r: Seq<V>, q: Seq<V>)
    requires
        in_order(r),
        in_order(q),
        distinct_keys(r),
        distinct_keys(q),
        r.to_multiset() == q.to_multiset(),
    ensures
        r == q,
    decreases r.len(),
{
    broadcast use vstd::seq_lib::group_to_multiset_ensures;

    assert(r.len() == q.len()) by {
        assert(r.to_multiset().len() == r.len());
        assert(q.to_multiset().len() == q.len());
    }
    if r.len() == 0 {
        assert(r =~= q);
    } else {
        let n = r.len() - 1;
        // the last record of each is the last record of the other
        assert(r.contains(r[n]));
        assert(q.to_multiset().count(r[n]) > 0);
        assert(q.contains(r[n]));
        let k = choose|k: int| 0 <= k < q.len() && q[k] == r[n];
        assert(q.contains(q[n]));
        assert(r.to_multiset().count(q[n]) > 0);
        assert(r.contains(q[n]));
        let m = choose|m: int| 0 <= m < r.len() && r[m] == q[n];
        if k < n {
            assert(text_le(q[k].sort_key(), q[n].sort_key()));
            if m < n {
                assert(text_le(r[m].sort_key(), r[n].sort_key()));
            } else {
                lemma_text_le_refl(r[n].sort_key());
            }
            lemma_text_le_antisymmetric(q[k].sort_key(), q[n].sort_key());
            assert(q[k].sort_key() != q[n].sort_key());
        }
        assert(r[n] == q[n]);
        let r0 = r.drop_last();
        let q0 = q.drop_last();
        assert(r0.push(r[n]) =~= r);
        assert(q0.push(q[n]) =~= q);
        assert(r0.to_multiset() =~= q0.to_multiset()) by {
            assert(r.to_multiset() == r0.to_multiset().insert(r[n]));
            assert(q.to_multiset() == q0.to_multiset().insert(q[n]));
            assert forall|v: V| r0.to_multiset().count(v) == q0.to_multiset().count(v) by {
                assert(r0.to_multiset().insert(r[n]).count(v) == q0.to_multiset().insert(
                    q[n],
                ).count(v));
            }
        }
        assert forall|i: int, j: int| 0 <= i < j < r0.len() implies text_le(
            #[trigger] r0[i].sort_key(),
            #[trigger] r0[j].sort_key(),
        ) && r0[i].sort_key() != r0[j].sort_key() by {
            assert(text_le(r[i].sort_key(), r[j].sort_key()));
            assert(r[i].sort_key() != r[j].sort_key());
        }
        assert forall|i: int, j: int| 0 <= i < j < q0.len() implies text_le(
            #[trigger] q0[i].sort_key(),
            #[trigger] q0[j].sort_key(),
        ) && q0[i].sort_key() != q0[j].sort_key() by {
            assert(text_le(q[i].sort_key(), q[j].sort_key()));
            assert(q[i].sort_key() != q[j].sort_key());
        }
        law_ordered_listing_is_unique(r0, q0);
    }
}

/// The sorted sequence of records without a repeated key is the one ordered
/// sequence of those records.
pub proof fn law_sorted_is_the_ordered_listing<V: Keyed>(s: Seq<V>, r: Seq<V>)
    requires
        distinct_keys(s),
        distinct_keys(r),
        in_order(r),
        r.to_multiset() == s.to_multiset(),
    ensures
        r == sorted(s),
{
    lemma_sorted(s);
    lemma_sorted_distinct_keys(s);
    law_ordered_listing_is_unique(r, sorted(s));
}

/// The test "its key is `key`".
pub open spec fn keyed_by<V: Keyed>(key: Seq<char>) -> spec_fn(V) -> bool {
    |v: V| v.sort_key() == key
}

/// Putting a record in its place puts it behind the records of its key and
/// leaves the records of every key in their order.
proof fn lemma_place_is_stable<V: Keyed>(s: Seq<V>, x: V, key: Seq<char>)
    ensures
        place(s, x).filter(keyed_by(key)) == if x.sort_key() == key {
            s.filter(keyed_by(key)).push(x)
        } else {
            s.filter(keyed_by(key))
        },
    decreases s.len(),
{
    if s.len() == 0 || text_le(s.last().sort_key(), x.sort_key()) {
        s.lemma_filter_push(x, keyed_by(key));
    } else {
        let t = s.drop_last();
        let l = s.last();
        lemma_place_is_stable(t, x, key);
        place(t, x).lemma_filter_push(l, keyed_by(key));
        t.lemma_filter_push(l, keyed_by(key));
        assert(t.push(l) =~= s);
        if x.sort_key() == key {
            lemma_text_le_refl(key);
        }
    }
}

/// Sorting is stable: the records of one key stand in the sorted sequence
/// in the order they have in the sequence it was made from.
pub proof fn law_sorted_is_stable<V: Keyed>(s: Seq<V>, key: Seq<char>)
    ensures
        sorted(s).filter(keyed_by(key)) == s.filter(keyed_by(key)),
    decreases s.len(),
{
    if s.len() == 0 {
    } else {
        let t = s.drop_last();
        law_sorted_is_stable(t, key);
        lemma_place_is_stable(sorted(t), s.last(), key);
        t.lemma_filter_push(s.last(), keyed_by(key));
        assert(t.push(s.last()) =~= s);
    }
}

/// Sorting a sequence with one more record at its end.
pub proof fn lemma_sorted_push<V: Keyed>(s: Seq<V>, x: V)
    ensures
        sorted(s.push(x)) == place(sorted(s), x),
{
    assert(s.push(x).drop_last() =~= s);
}

/// Puts `row` into the ordered list `out`, behind the records that do not
/// come after it.
pub fn place_row<T: Entry>(out: &mut Vec<T>, row: T) where T::V: Keyed
    ensures
        views(final(out)@) == place(views(old(out)@), row@),
{
    let mut p: usize = out.len();
    while p > 0 && !precedes_or_equals(out[p - 1].row_key().as_str(), row.row_key().as_str())
        invariant
            p <= out.len(),
            *out == *old(out),
            forall|j: int|
                p <= j < out.len() ==> !text_le(
                    #[trigger] views(out@)[j].sort_key(),
                    row@.sort_key(),
                ),
        decreases p,
    {
        p -= 1;
    }
    proof {
        lemma_place_at(views(out@), row@, p as int);
        lemma_views_insert(out@, p as int, row);
    }
    out.insert(p, row);
}

} // verus!
