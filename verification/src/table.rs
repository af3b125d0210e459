//! What the four tables have in common: looking a record up by its
//! identifier, choosing the identifier of a new record, and selecting the
//! records that belong to a parent.

use vstd::prelude::*;
use crate::rows::{views, lemma_views_push, Keyed, Owned, Entry, Child};
use crate::order::{
    distinct_keys, in_order, lemma_sorted, lemma_sorted_contains, lemma_sorted_distinct_keys,
    lemma_sorted_push, place_row, sorted,
};

verus! {

/// Some record of `s` has the identifier `id`.
pub open spec fn has_id<V: Keyed>(s: Seq<V>, id: i64) -> bool {
    exists|i: int| 0 <= i < s.len() && (#[trigger] s[i]).ident() == id
}

/// No identifier occurs twice in `s`.
pub open spec fn distinct_ids<V: Keyed>(s: Seq<V>) -> bool {
    forall|i: int, j: int|
        0 <= i < j < s.len() ==> (#[trigger] s[i]).ident() != (#[trigger] s[j]).ident()
}

/// Some record of `s` is listed under the text `key`.
pub open spec fn has_key<V: Keyed>(s: Seq<V>, key: Seq<char>) -> bool {
    exists|i: int| 0 <= i < s.len() && (#[trigger] s[i]).sort_key() == key
}

/// Some record of `s` that belongs to `owner` is listed under the text `key`.
pub open spec fn has_key_under<V: Owned>(s: Seq<V>, key: Seq<char>, owner: i64) -> bool {
    exists|i: int| 0 <= i < s.len() && (#[trigger] s[i]).sort_key() == key && s[i].owner() == owner
}

/// No two records of `s` that belong to the same parent are listed under the
/// same text.
pub open spec fn distinct_keys_per_owner<V: Owned>(s: Seq<V>) -> bool {
    forall|i: int, j: int|
        0 <= i < j < s.len() ==> (#[trigger] s[i]).sort_key() != (#[trigger] s[j]).sort_key()
            || s[i].owner() != s[j].owner()
}

/// Every record of `s` belongs to a record of `parents`.
pub open spec fn owners_exist<V: Owned, P: Keyed>(s: Seq<V>, parents: Seq<P>) -> bool {
    forall|i: int| 0 <= i < s.len() ==> has_id(parents, (#[trigger] s[i]).owner())
}

/// The position in `s` of a record with the identifier `id`.
pub open spec fn index_of_id<V: Keyed>(s: Seq<V>, id: i64) -> int {
    choose|i: int| 0 <= i < s.len() && (#[trigger] s[i]).ident() == id
}

/// The position in `s` of a record listed under the text `key`.
pub open spec fn index_of_key<V: Keyed>(s: Seq<V>, key: Seq<char>) -> int {
    choose|i: int| 0 <= i < s.len() && (#[trigger] s[i]).sort_key() == key
}

/// The position in `s` of a record that belongs to `owner` and is listed
/// under the text `key`.
pub open spec fn index_of_key_under<V: Owned>(s: Seq<V>, key: Seq<char>, owner: i64) -> int {
    choose|i: int| 0 <= i < s.len() && (#[trigger] s[i]).sort_key() == key && s[i].owner() == owner
}

/// In a table of distinct keys, a record is found where it stands.
pub proof fn lemma_index_of_key<V: Keyed>(s: Seq<V>, i: int)
    requires
        distinct_keys(s),
        0 <= i < s.len(),
    ensures
        has_key(s, s[i].sort_key()),
        index_of_key(s, s[i].sort_key()) == i,
{
    let key = s[i].sort_key();
    let k = index_of_key(s, key);
    assert(0 <= k < s.len() && s[k].sort_key() == key);
    if k < i {
        assert(s[k].sort_key() != s[i].sort_key());
    } else if i < k {
        assert(s[i].sort_key() != s[k].sort_key());
    }
}

/// In a table of keys that are distinct under each parent, a record is found
/// where it stands.
pub proof fn lemma_index_of_key_under<V: Owned>(s: Seq<V>, i: int)
    requires
        distinct_keys_per_owner(s),
        0 <= i < s.len(),
    ensures
        has_key_under(s, s[i].sort_key(), s[i].owner()),
        index_of_key_under(s, s[i].sort_key(), s[i].owner()) == i,
{
    let key = s[i].sort_key();
    let owner = s[i].owner();
    let k = index_of_key_under(s, key, owner);
    assert(0 <= k < s.len() && s[k].sort_key() == key && s[k].owner() == owner);
    if k < i {
        assert(s[k].sort_key() != s[i].sort_key() || s[k].owner() != s[i].owner());
    } else if i < k {
        assert(s[i].sort_key() != s[k].sort_key() || s[i].owner() != s[k].owner());
    }
}

/// In a table of distinct identifiers, a record is found where it stands.
pub proof fn lemma_index_of_id<V: Keyed>(s: Seq<V>, i: int)
    requires
        distinct_ids(s),
        0 <= i < s.len(),
    ensures
        has_id(s, s[i].ident()),
        index_of_id(s, s[i].ident()) == i,
{
    let id = s[i].ident();
    let k = index_of_id(s, id);
    assert(0 <= k < s.len() && s[k].ident() == id);
    if k < i {
        assert(s[k].ident() != s[i].ident());
    } else if i < k {
        assert(s[i].ident() != s[k].ident());
    }
}

/// The identifier that the next record of the table gets: one more than the
/// largest in use, and 1 where none is in use or none is positive.
pub open spec fn next_id<V: Keyed>(s: Seq<V>) -> int
    decreases s.len(),
{
    if s.len() == 0 {
        1
    } else {
        let before = next_id(s.drop_last());
        if s.last().ident() >= before {
            s.last().ident() + 1
        } else {
            before
        }
    }
}

/// The next identifier lies above every identifier in use.
pub proof fn lemma_next_id_is_new<V: Keyed>(s: Seq<V>)
    ensures
        next_id(s) >= 1,
        forall|i: int| 0 <= i < s.len() ==> (#[trigger] s[i]).ident() < next_id(s),
        !exists|i: int| 0 <= i < s.len() && (#[trigger] s[i]).ident() == next_id(s),
    decreases s.len(),
{
    if s.len() > 0 {
        let t = s.drop_last();
        lemma_next_id_is_new(t);
        assert forall|i: int| 0 <= i < s.len() implies (#[trigger] s[i]).ident() < next_id(s) by {
            if i < t.len() {
                assert(t[i] == s[i]);
            }
        }
    }
}

/// Two records that pass a test stand in the selection in the order they
/// have in the table.
pub proof fn lemma_filter_keeps_order<A>(s: Seq<A>, p: spec_fn(A) -> bool, i: int, j: int)
    requires
        0 <= i < j < s.filter(p).len(),
    ensures
        exists|a: int, b: int|
            0 <= a < b < s.len() && #[trigger] s[a] == s.filter(p)[i] && #[trigger] s[b]
                == s.filter(p)[j],
    decreases s.len(),
{
    reveal(Seq::filter);
    if s.len() > 0 {
        let t = s.drop_last();
        let ft = t.filter(p);
        if j < ft.len() {
            lemma_filter_keeps_order(t, p, i, j);
            let (a, b) = choose|a: int, b: int|
                0 <= a < b < t.len() && #[trigger] t[a] == ft[i] && #[trigger] t[b] == ft[j];
            assert(s[a] == s.filter(p)[i] && s[b] == s.filter(p)[j]);
        } else {
            lemma_filter_is_member(t, p, i);
            let a = choose|a: int| 0 <= a < t.len() && #[trigger] t[a] == ft[i];
            let b = s.len() - 1;
            assert(s[a] == s.filter(p)[i] && s[b] == s.filter(p)[j]);
        }
    }
}

/// A record of the selection is a record of the table, and passes the test.
pub proof fn lemma_filter_is_member<A>(s: Seq<A>, p: spec_fn(A) -> bool, i: int)
    requires
        0 <= i < s.filter(p).len(),
    ensures
        exists|a: int| 0 <= a < s.len() && #[trigger] s[a] == s.filter(p)[i],
        p(s.filter(p)[i]),
    decreases s.len(),
{
    reveal(Seq::filter);
    if s.len() > 0 {
        let t = s.drop_last();
        let ft = t.filter(p);
        if i < ft.len() {
            lemma_filter_is_member(t, p, i);
            let a = choose|a: int| 0 <= a < t.len() && #[trigger] t[a] == ft[i];
            assert(s[a] == s.filter(p)[i]);
        } else {
            assert(s[s.len() - 1] == s.filter(p)[i]);
        }
    }
}

/// A record of the table that passes the test is a record of the selection.
pub proof fn lemma_filter_has_member<A>(s: Seq<A>, p: spec_fn(A) -> bool, a: int)
    requires
        0 <= a < s.len(),
        p(s[a]),
    ensures
        exists|i: int| 0 <= i < s.filter(p).len() && #[trigger] s.filter(p)[i] == s[a],
    decreases s.len(),
{
    reveal(Seq::filter);
    let t = s.drop_last();
    let ft = t.filter(p);
    if a < t.len() {
        lemma_filter_has_member(t, p, a);
        let i = choose|i: int| 0 <= i < ft.len() && #[trigger] ft[i] == t[a];
        assert(s.filter(p)[i] == s[a]);
    } else {
        assert(s.filter(p)[ft.len() as int] == s[a]);
    }
}

/// A selection of a table keeps what holds of every pair of its records.
pub proof fn lemma_filter_keeps_distinct<V: Owned>(s: Seq<V>, p: spec_fn(V) -> bool)
    ensures
        distinct_ids(s) ==> distinct_ids(s.filter(p)),
        distinct_keys_per_owner(s) ==> distinct_keys_per_owner(s.filter(p)),
{
    let f = s.filter(p);
    if distinct_ids(s) {
        assert forall|i: int, j: int| 0 <= i < j < f.len() implies (#[trigger] f[i]).ident() != (
        #[trigger] f[j]).ident() by {
            lemma_filter_keeps_order(s, p, i, j);
        }
    }
    if distinct_keys_per_owner(s) {
        assert forall|i: int, j: int| 0 <= i < j < f.len() implies (#[trigger] f[i]).sort_key() != (
        #[trigger] f[j]).sort_key() || f[i].owner() != f[j].owner() by {
            lemma_filter_keeps_order(s, p, i, j);
        }
    }
}

/// A selection of a table keeps its identifiers and its keys distinct.
pub proof fn lemma_filter_keeps_distinct_keys<V: Keyed>(s: Seq<V>, p: spec_fn(V) -> bool)
    ensures
        distinct_ids(s) ==> distinct_ids(s.filter(p)),
        distinct_keys(s) ==> distinct_keys(s.filter(p)),
{
    let f = s.filter(p);
    if distinct_ids(s) {
        assert forall|i: int, j: int| 0 <= i < j < f.len() implies (#[trigger] f[i]).ident() != (
        #[trigger] f[j]).ident() by {
            lemma_filter_keeps_order(s, p, i, j);
        }
    }
    if distinct_keys(s) {
        assert forall|i: int, j: int| 0 <= i < j < f.len() implies (#[trigger] f[i]).sort_key() != (
        #[trigger] f[j]).sort_key() by {
            lemma_filter_keeps_order(s, p, i, j);
        }
    }
}

/// A record is in a selection exactly if it is in the table and passes the
/// test.
pub proof fn lemma_filter_contains<A>(s: Seq<A>, p: spec_fn(A) -> bool, v: A)
    ensures
        s.filter(p).contains(v) <==> s.contains(v) && p(v),
{
    if s.filter(p).contains(v) {
        let i = choose|i: int| 0 <= i < s.filter(p).len() && s.filter(p)[i] == v;
        lemma_filter_is_member(s, p, i);
    }
    if s.contains(v) && p(v) {
        let a = choose|a: int| 0 <= a < s.len() && s[a] == v;
        lemma_filter_has_member(s, p, a);
    }
}

/// A selection by a test that every record passes is the whole table.
pub proof fn lemma_filter_all<A>(s: Seq<A>, p: spec_fn(A) -> bool)
    requires
        forall|i: int| 0 <= i < s.len() ==> p(#[trigger] s[i]),
    ensures
        s.filter(p) == s,
    decreases s.len(),
{
    reveal(Seq::filter);
    if s.len() > 0 {
        let t = s.drop_last();
        assert forall|i: int| 0 <= i < t.len() implies p(#[trigger] t[i]) by {
            assert(t[i] == s[i]);
        }
        lemma_filter_all(t, p);
        assert(t.push(s.last()) =~= s);
    }
}

/// A table with one more record still has the identifiers it had.
pub proof fn lemma_has_id_push<V: Keyed>(s: Seq<V>, x: V, id: i64)
    ensures
        has_id(s, id) ==> has_id(s.push(x), id),
        has_id(s.push(x), x.ident()),
        has_id(s.push(x), id) ==> has_id(s, id) || id == x.ident(),
{
    if has_id(s, id) {
        let i = choose|i: int| 0 <= i < s.len() && (#[trigger] s[i]).ident() == id;
        assert(s.push(x)[i].ident() == id);
    }
    assert(s.push(x)[s.len() as int].ident() == x.ident());
    if has_id(s.push(x), id) {
        let i = choose|i: int| 0 <= i < s.push(x).len() && (#[trigger] s.push(x)[i]).ident() == id;
        if i < s.len() {
            assert(s[i].ident() == id);
        }
    }
}

/// A record with an unused identifier leaves the identifiers distinct.
pub proof fn lemma_push_distinct_ids<V: Keyed>(s: Seq<V>, x: V)
    requires
        distinct_ids(s),
        !has_id(s, x.ident()),
    ensures
        distinct_ids(s.push(x)),
{
    let r = s.push(x);
    assert forall|i: int, j: int| 0 <= i < j < r.len() implies (#[trigger] r[i]).ident() != (
    #[trigger] r[j]).ident() by {
        if j == s.len() {
            assert(s[i].ident() != x.ident());
        } else {
            assert(s[i].ident() != s[j].ident());
        }
    }
}

/// A record with an unused key leaves the keys distinct.
pub proof fn lemma_push_distinct_keys<V: Keyed>(s: Seq<V>, x: V)
    requires
        distinct_keys(s),
        !has_key(s, x.sort_key()),
    ensures
        distinct_keys(s.push(x)),
{
    let r = s.push(x);
    assert forall|i: int, j: int| 0 <= i < j < r.len() implies (#[trigger] r[i]).sort_key() != (
    #[trigger] r[j]).sort_key() by {
        if j == s.len() {
            assert(s[i].sort_key() != x.sort_key());
        } else {
            assert(s[i].sort_key() != s[j].sort_key());
        }
    }
}

/// A record with a key unused under its parent leaves the keys distinct
/// under every parent.
pub proof fn lemma_push_distinct_keys_per_owner<V: Owned>(s: Seq<V>, x: V)
    requires
        distinct_keys_per_owner(s),
        !has_key_under(s, x.sort_key(), x.owner()),
    ensures
        distinct_keys_per_owner(s.push(x)),
{
    let r = s.push(x);
    assert forall|i: int, j: int| 0 <= i < j < r.len() implies (#[trigger] r[i]).sort_key() != (
    #[trigger] r[j]).sort_key() || r[i].owner() != r[j].owner() by {
        if j == s.len() {
            assert(s[i].sort_key() != x.sort_key() || s[i].owner() != x.owner());
        } else {
            assert(s[i].sort_key() != s[j].sort_key() || s[i].owner() != s[j].owner());
        }
    }
}

/// One more parent leaves every record with a parent.
pub proof fn lemma_owners_exist_more_parents<V: Owned, P: Keyed>(s: Seq<V>, parents: Seq<P>, x: P)
    requires
        owners_exist(s, parents),
    ensures
        owners_exist(s, parents.push(x)),
{
    assert forall|i: int| 0 <= i < s.len() implies has_id(
        parents.push(x),
        (#[trigger] s[i]).owner(),
    ) by {
        lemma_has_id_push(parents, x, s[i].owner());
    }
}

/// One more record whose parent exists leaves every record with a parent.
pub proof fn lemma_owners_exist_push<V: Owned, P: Keyed>(s: Seq<V>, parents: Seq<P>, x: V)
    requires
        owners_exist(s, parents),
        has_id(parents, x.owner()),
    ensures
        owners_exist(s.push(x), parents),
{
    let r = s.push(x);
    assert forall|i: int| 0 <= i < r.len() implies has_id(parents, (#[trigger] r[i]).owner()) by {
        if i < s.len() {
            assert(has_id(parents, s[i].owner()));
        }
    }
}

/// The test "its identifier is not `id`".
pub open spec fn not_id<V: Keyed>(id: i64) -> spec_fn(V) -> bool {
    |v: V| v.ident() != id
}

/// The test "it belongs to `owner`".
pub open spec fn owned_by<V: Owned>(owner: i64) -> spec_fn(V) -> bool {
    |v: V| v.owner() == owner
}

/// The test "the record it belongs to is among `parents`".
pub open spec fn owner_among<V: Owned, P: Keyed>(parents: Seq<P>) -> spec_fn(V) -> bool {
    |v: V| has_id(parents, v.owner())
}

/// The records that belong to `owner`, listed by key.
pub open spec fn listed_under<V: Owned>(s: Seq<V>, owner: i64) -> Seq<V> {
    sorted(s.filter(owned_by(owner)))
}

/// What is listed under a parent is in the order of its keys; and where no
/// two records of the table have the same key under one parent, no two of
/// the listed records have the same key.
pub proof fn lemma_listed_in_order<V: Owned>(s: Seq<V>, owner: i64)
    ensures
        in_order(listed_under(s, owner)),
        distinct_keys_per_owner(s) ==> distinct_keys(listed_under(s, owner)),
{
    let f = s.filter(owned_by(owner));
    lemma_sorted(f);
    if distinct_keys_per_owner(s) {
        lemma_filter_keeps_distinct(s, owned_by(owner));
        assert forall|i: int, j: int| 0 <= i < j < f.len() implies (#[trigger] f[i]).sort_key() != (
        #[trigger] f[j]).sort_key() by {
            lemma_filter_is_member(s, owned_by(owner), i);
            lemma_filter_is_member(s, owned_by(owner), j);
            assert(f[i].sort_key() != f[j].sort_key() || f[i].owner() != f[j].owner());
        }
        lemma_sorted_distinct_keys(f);
    }
}

/// A record is listed under a parent exactly if it is in the table and
/// belongs to the parent.
pub proof fn lemma_listed_contains<V: Owned>(s: Seq<V>, owner: i64, v: V)
    ensures
        listed_under(s, owner).contains(v) <==> s.contains(v) && v.owner() == owner,
{
    let f = s.filter(owned_by(owner));
    lemma_sorted_contains(f, v);
    if f.contains(v) {
        let i = choose|i: int| 0 <= i < f.len() && f[i] == v;
        lemma_filter_is_member(s, owned_by(owner), i);
    }
    if s.contains(v) && v.owner() == owner {
        let a = choose|a: int| 0 <= a < s.len() && s[a] == v;
        lemma_filter_has_member(s, owned_by(owner), a);
    }
}

/// Looks for the record with the identifier `id`.
pub fn find_id<T: Entry>(rows: &Vec<T>, id: i64) -> (r: Option<usize>) where T::V: Keyed
    ensures
        r is Some <==> has_id(views(rows@), id),
        r matches Some(i) ==> i < rows.len() && views(rows@)[i as int].ident() == id,
{
    let mut i: usize = 0;
    while i < rows.len()
        invariant
            i <= rows.len(),
            forall|k: int| 0 <= k < i ==> (#[trigger] views(rows@)[k]).ident() != id,
        decreases rows.len() - i,
    {
        if rows[i].row_id() == id {
            assert(views(rows@)[i as int].ident() == id);
            return Some(i);
        }
        i += 1;
    }
    None
}

/// Looks for a record listed under the text `key`.
pub fn find_key<T: Entry>(rows: &Vec<T>, key: &String) -> (r: Option<usize>) where T::V: Keyed
    ensures
        r is Some <==> has_key(views(rows@), key@),
        r matches Some(i) ==> i < rows.len() && views(rows@)[i as int].sort_key() == key@,
{
    let mut i: usize = 0;
    while i < rows.len()
        invariant
            i <= rows.len(),
            forall|k: int| 0 <= k < i ==> (#[trigger] views(rows@)[k]).sort_key() != key@,
        decreases rows.len() - i,
    {
        if *rows[i].row_key() == *key {
            assert(views(rows@)[i as int].sort_key() == key@);
            return Some(i);
        }
        i += 1;
    }
    None
}

/// Looks for a record that belongs to `owner` and is listed under `key`.
pub fn find_key_under<T: Child>(rows: &Vec<T>, key: &String, owner: i64) -> (r: Option<
    usize,
>) where T::V: Owned
    ensures
        r is Some <==> has_key_under(views(rows@), key@, owner),
        r matches Some(i) ==> i < rows.len() && views(rows@)[i as int].sort_key() == key@ && views(
            rows@,
        )[i as int].owner() == owner,
{
    let mut i: usize = 0;
    while i < rows.len()
        invariant
            i <= rows.len(),
            forall|k: int|
                0 <= k < i ==> (#[trigger] views(rows@)[k]).sort_key() != key@ || views(
                    rows@,
                )[k].owner() != owner,
        decreases rows.len() - i,
    {
        if rows[i].owner_id() == owner && *rows[i].row_key() == *key {
            assert(views(rows@)[i as int].sort_key() == key@);
            return Some(i);
        }
        i += 1;
    }
    None
}

/// Decides whether no identifier occurs twice in the table.
pub fn ids_are_distinct<T: Entry>(rows: &Vec<T>) -> (r: bool) where T::V: Keyed
    ensures
        r == distinct_ids(views(rows@)),
{
    let mut j: usize = 0;
    while j < rows.len()
        invariant
            j <= rows.len(),
            forall|a: int, b: int|
                0 <= a < b < j ==> (#[trigger] views(rows@)[a]).ident() != (#[trigger] views(
                    rows@,
                )[b]).ident(),
        decreases rows.len() - j,
    {
        let mut i: usize = 0;
        while i < j
            invariant
                i <= j < rows.len(),
                forall|a: int|
                    0 <= a < i ==> (#[trigger] views(rows@)[a]).ident() != views(rows@)[j as int].ident(),
            decreases j - i,
        {
            if rows[i].row_id() == rows[j].row_id() {
                assert(views(rows@)[i as int].ident() == views(rows@)[j as int].ident());
                return false;
            }
            i += 1;
        }
        j += 1;
    }
    true
}

/// Decides whether no two records of the table are listed under the same
/// text.
pub fn keys_are_distinct<T: Entry>(rows: &Vec<T>) -> (r: bool) where T::V: Keyed
    ensures
        r == distinct_keys(views(rows@)),
{
    let mut j: usize = 0;
    while j < rows.len()
        invariant
            j <= rows.len(),
            forall|a: int, b: int|
                0 <= a < b < j ==> (#[trigger] views(rows@)[a]).sort_key() != (#[trigger] views(
                    rows@,
                )[b]).sort_key(),
        decreases rows.len() - j,
    {
        let mut i: usize = 0;
        while i < j
            invariant
                i <= j < rows.len(),
                forall|a: int|
                    0 <= a < i ==> (#[trigger] views(rows@)[a]).sort_key() != views(
                        rows@,
                    )[j as int].sort_key(),
            decreases j - i,
        {
            if *rows[i].row_key() == *rows[j].row_key() {
                assert(views(rows@)[i as int].sort_key() == views(rows@)[j as int].sort_key());
                return false;
            }
            i += 1;
        }
        j += 1;
    }
    true
}

/// Decides whether no two records of the table that belong to the same
/// parent are listed under the same text.
pub fn keys_are_distinct_per_owner<T: Child>(rows: &Vec<T>) -> (r: bool) where T::V: Owned
    ensures
        r == distinct_keys_per_owner(views(rows@)),
{
    let mut j: usize = 0;
    while j < rows.len()
        invariant
            j <= rows.len(),
            forall|a: int, b: int|
                0 <= a < b < j ==> (#[trigger] views(rows@)[a]).sort_key() != (#[trigger] views(
                    rows@,
                )[b]).sort_key() || views(rows@)[a].owner() != views(rows@)[b].owner(),
        decreases rows.len() - j,
    {
        let mut i: usize = 0;
        while i < j
            invariant
                i <= j < rows.len(),
                forall|a: int|
                    0 <= a < i ==> (#[trigger] views(rows@)[a]).sort_key() != views(
                        rows@,
                    )[j as int].sort_key() || views(rows@)[a].owner() != views(
                        rows@,
                    )[j as int].owner(),
            decreases j - i,
        {
            if rows[i].owner_id() == rows[j].owner_id() && *rows[i].row_key() == *rows[j].row_key() {
                assert(views(rows@)[i as int].sort_key() == views(rows@)[j as int].sort_key());
                assert(views(rows@)[i as int].owner() == views(rows@)[j as int].owner());
                return false;
            }
            i += 1;
        }
        j += 1;
    }
    true
}

/// Decides whether every record of the table belongs to a record of
/// `parents`.
pub fn owners_are_present<T: Child, P: Entry>(rows: &Vec<T>, parents: &Vec<P>) -> (r: bool) where
    T::V: Owned,
    P::V: Keyed,

    ensures
        r == owners_exist(views(rows@), views(parents@)),
{
    let mut i: usize = 0;
    while i < rows.len()
        invariant
            i <= rows.len(),
            forall|a: int|
                0 <= a < i ==> has_id(views(parents@), (#[trigger] views(rows@)[a]).owner()),
        decreases rows.len() - i,
    {
        if find_id(parents, rows[i].owner_id()).is_none() {
            assert(!has_id(views(parents@), views(rows@)[i as int].owner()));
            return false;
        }
        i += 1;
    }
    true
}

/// Chooses the identifier of the next record, if the integers have one left.
pub fn fresh_id<T: Entry>(rows: &Vec<T>) -> (r: Option<i64>) where T::V: Keyed
    ensures
        match r {
            Some(id) => id == next_id(views(rows@)),
            None => next_id(views(rows@)) > i64::MAX,
        },
{
    let mut top: i64 = 0;
    let mut i: usize = 0;
    assert(views(rows@).take(0) =~= Seq::<T::V>::empty());
    while i < rows.len()
        invariant
            i <= rows.len(),
            top + 1 == next_id(views(rows@).take(i as int)),
        decreases rows.len() - i,
    {
        let id: i64 = rows[i].row_id();
        assert(views(rows@).take(i + 1).drop_last() =~= views(rows@).take(i as int));
        if id > top {
            top = id;
        }
        i += 1;
    }
    assert(views(rows@).take(rows.len() as int) =~= views(rows@));
    if top == i64::MAX {
        None
    } else {
        Some(top + 1)
    }
}

/// The table without the record that has the identifier `id`.
pub fn remove_id<T: Entry>(rows: &Vec<T>, id: i64) -> (out: Vec<T>) where T::V: Keyed
    ensures
        views(out@) == views(rows@).filter(not_id(id)),
{
    let mut out: Vec<T> = Vec::new();
    let mut i: usize = 0;
    proof {
        reveal(Seq::filter);
        assert(views(rows@).take(0) =~= Seq::<T::V>::empty());
        assert(views(out@) =~= Seq::<T::V>::empty());
    }
    while i < rows.len()
        invariant
            i <= rows.len(),
            views(out@) == views(rows@).take(i as int).filter(not_id(id)),
        decreases rows.len() - i,
    {
        proof {
            let v = views(rows@);
            assert(v.take(i + 1) =~= v.take(i as int).push(v[i as int]));
            v.take(i as int).lemma_filter_push(v[i as int], not_id(id));
        }
        if rows[i].row_id() != id {
            let row = rows[i].duplicate();
            proof {
                lemma_views_push(out@, row);
            }
            out.push(row);
        }
        i += 1;
    }
    assert(views(rows@).take(rows.len() as int) =~= views(rows@));
    out
}

/// The records of the table that belong to `owner`, in the order of the
/// table.
pub fn select_owned_by<T: Child>(rows: &Vec<T>, owner: i64) -> (out: Vec<T>) where T::V: Owned
    ensures
        views(out@) == views(rows@).filter(owned_by(owner)),
{
    let mut out: Vec<T> = Vec::new();
    let mut i: usize = 0;
    proof {
        reveal(Seq::filter);
        assert(views(rows@).take(0) =~= Seq::<T::V>::empty());
        assert(views(out@) =~= Seq::<T::V>::empty());
    }
    while i < rows.len()
        invariant
            i <= rows.len(),
            views(out@) == views(rows@).take(i as int).filter(owned_by(owner)),
        decreases rows.len() - i,
    {
        proof {
            let v = views(rows@);
            assert(v.take(i + 1) =~= v.take(i as int).push(v[i as int]));
            v.take(i as int).lemma_filter_push(v[i as int], owned_by(owner));
        }
        if rows[i].owner_id() == owner {
            let row = rows[i].duplicate();
            proof {
                lemma_views_push(out@, row);
            }
            out.push(row);
        }
        i += 1;
    }
    assert(views(rows@).take(rows.len() as int) =~= views(rows@));
    out
}

/// The records of the table whose parent is among `parents`.
pub fn keep_owned_among<T: Child, P: Entry>(rows: &Vec<T>, parents: &Vec<P>) -> (out: Vec<T>) where
    T::V: Owned,
    P::V: Keyed,

    ensures
        views(out@) == views(rows@).filter(owner_among(views(parents@))),
{
    let mut out: Vec<T> = Vec::new();
    let mut i: usize = 0;
    proof {
        reveal(Seq::filter);
        assert(views(rows@).take(0) =~= Seq::<T::V>::empty());
        assert(views(out@) =~= Seq::<T::V>::empty());
    }
    while i < rows.len()
        invariant
            i <= rows.len(),
            views(out@) == views(rows@).take(i as int).filter(owner_among(views(parents@))),
        decreases rows.len() - i,
    {
        proof {
            let v = views(rows@);
            assert(v.take(i + 1) =~= v.take(i as int).push(v[i as int]));
            v.take(i as int).lemma_filter_push(v[i as int], owner_among(views(parents@)));
        }
        let found = find_id(parents, rows[i].owner_id());
        if found.is_some() {
            let row = rows[i].duplicate();
            proof {
                lemma_views_push(out@, row);
            }
            out.push(row);
        }
        i += 1;
    }
    assert(views(rows@).take(rows.len() as int) =~= views(rows@));
    out
}

/// The records of the table that belong to `owner`, listed by key.
pub fn list_owned_by<T: Child>(rows: &Vec<T>, owner: i64) -> (out: Vec<T>) where T::V: Owned
    ensures
        views(out@) == listed_under(views(rows@), owner),
{
    let mut out: Vec<T> = Vec::new();
    let mut i: usize = 0;
    proof {
        reveal(Seq::filter);
        assert(views(rows@).take(0) =~= Seq::<T::V>::empty());
        assert(views(out@) =~= Seq::<T::V>::empty());
    }
    while i < rows.len()
        invariant
            i <= rows.len(),
            views(out@) == sorted(views(rows@).take(i as int).filter(owned_by(owner))),
        decreases rows.len() - i,
    {
        proof {
            let v = views(rows@);
            assert(v.take(i + 1) =~= v.take(i as int).push(v[i as int]));
            v.take(i as int).lemma_filter_push(v[i as int], owned_by(owner));
            lemma_sorted_push(v.take(i as int).filter(owned_by(owner)), v[i as int]);
        }
        if rows[i].owner_id() == owner {
            place_row(&mut out, rows[i].duplicate());
        }
        i += 1;
    }
    assert(views(rows@).take(rows.len() as int) =~= views(rows@));
    out
}

/// All records of the table, listed by key.
pub fn list_all<T: Entry>(rows: &Vec<T>) -> (out: Vec<T>) where T::V: Keyed
    ensures
        views(out@) == sorted(views(rows@)),
{
    let mut out: Vec<T> = Vec::new();
    let mut i: usize = 0;
    proof {
        assert(views(rows@).take(0) =~= Seq::<T::V>::empty());
        assert(views(out@) =~= Seq::<T::V>::empty());
    }
    while i < rows.len()
        invariant
            i <= rows.len(),
            views(out@) == sorted(views(rows@).take(i as int)),
        decreases rows.len() - i,
    {
        proof {
            let v = views(rows@);
            assert(v.take(i + 1) =~= v.take(i as int).push(v[i as int]));
            lemma_sorted_push(v.take(i as int), v[i as int]);
        }
        place_row(&mut out, rows[i].duplicate());
        i += 1;
    }
    assert(views(rows@).take(rows.len() as int) =~= views(rows@));
    out
}

} // verus!
