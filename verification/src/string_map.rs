//! A finite map from strings to strings, kept as a list of entries in ascending key order.
use vstd::prelude::*;
use vstd::pervasive::VecAdditionalExecFns;
use crate::name_order::{
    NameOrder, compare_names, name_lt, lemma_name_lt_irreflexive, lemma_name_lt_transitive,
    lemma_name_lt_total, lemma_name_lt_asymmetric,
};

verus! {

/// An entry as plain values: its key and its value.
pub type EntryView = (Seq<char>, Seq<char>);

/// The entries of a list, taken as plain values.
pub open spec fn entries_view(s: Seq<(String, String)>) -> Seq<EntryView> {
    s.map_values(|e: (String, String)| (e.0@, e.1@))
}

/// Keys strictly ascend along the list (so no key occurs twice).
pub open spec fn strictly_ascending(s: Seq<EntryView>) -> bool {
    forall|i: int, j: int| 0 <= i < j < s.len() ==> name_lt(#[trigger] s[i].0, #[trigger] s[j].0)
}

/// Some key of the list is `k`.
pub open spec fn lists_key(s: Seq<EntryView>, k: Seq<char>) -> bool {
    exists|i: int| 0 <= i < s.len() && s[i].0 == k
}

/// A position of the list whose key is `k`, where there is one.
pub open spec fn key_index(s: Seq<EntryView>, k: Seq<char>) -> int {
    choose|i: int| 0 <= i < s.len() && s[i].0 == k
}

/// The map that a list of entries with distinct keys lists.
pub open spec fn listing_map(s: Seq<EntryView>) -> Map<Seq<char>, Seq<char>> {
    Map::new(|k: Seq<char>| lists_key(s, k), |k: Seq<char>| s[key_index(s, k)].1)
}

/// The map built by inserting the pairs one after the other: of two pairs with the same
/// key, the later one wins.
pub open spec fn fold_pairs(s: Seq<EntryView>) -> Map<Seq<char>, Seq<char>>
    decreases s.len(),
{
    if s.len() == 0 {
        Map::empty()
    } else {
        fold_pairs(s.drop_last()).insert(s.last().0, s.last().1)
    }
}

/// No key occurs twice in the list.
pub open spec fn distinct_keys(s: Seq<EntryView>) -> bool {
    forall|i: int, j: int| 0 <= i < j < s.len() ==> #[trigger] s[i].0 != #[trigger] s[j].0
}

/// In a strictly ascending list no key occurs twice.
pub proof fn lemma_ascending_distinct(s: Seq<EntryView>)
    requires
        strictly_ascending(s),
    ensures
        distinct_keys(s),
{
    assert forall|i: int, j: int| 0 <= i < j < s.len() implies #[trigger] s[i].0 != #[trigger] s[j].0 by {
        assert(name_lt(s[i].0, s[j].0));
        lemma_name_lt_irreflexive(s[i].0);
    }
}

/// A list without repeated keys lists the entry at position `i`.
proof fn lemma_listing_map_at(s: Seq<EntryView>, i: int)
    requires
        strictly_ascending(s) || distinct_keys(s),
        0 <= i < s.len(),
    ensures
        listing_map(s).contains_key(s[i].0),
        listing_map(s)[s[i].0] == s[i].1,
{
    if strictly_ascending(s) {
        lemma_ascending_distinct(s);
    }
    let k = s[i].0;
    assert(lists_key(s, k));
    let j = key_index(s, k);
    if j < i {
        assert(s[j].0 != s[i].0);
    } else if j > i {
        assert(s[i].0 != s[j].0);
    }
}

/// A list without repeated keys lists each of its entries, and no other key.
pub proof fn lemma_listing_map_entries(s: Seq<EntryView>)
    requires
        strictly_ascending(s) || distinct_keys(s),
    ensures
        forall|i: int|
            #![trigger s[i]]
            0 <= i < s.len() ==> listing_map(s).contains_key(s[i].0) && listing_map(s)[s[i].0] == s[i].1,
        forall|k: Seq<char>|
            #[trigger] listing_map(s).contains_key(k) ==> exists|i: int| 0 <= i < s.len() && s[i].0 == k,
{
    assert forall|i: int| #![trigger s[i]] 0 <= i < s.len() implies listing_map(s).contains_key(s[i].0)
        && listing_map(s)[s[i].0] == s[i].1 by {
        lemma_listing_map_at(s, i);
    }
}

/// A list without repeated keys lists exactly one map: any map that holds its entries and
/// no other key is the map it lists.
pub proof fn lemma_listing_map_unique(s: Seq<EntryView>, m: Map<Seq<char>, Seq<char>>)
    requires
        strictly_ascending(s) || distinct_keys(s),
        forall|i: int| 0 <= i < s.len() ==> #[trigger] m.contains_key(s[i].0) && m[s[i].0] == s[i].1,
        forall|k: Seq<char>| #[trigger] m.contains_key(k) ==> exists|i: int| 0 <= i < s.len() && s[i].0 == k,
    ensures
        listing_map(s) == m,
{
    lemma_listing_map_entries(s);
    assert forall|k: Seq<char>| #[trigger] listing_map(s).contains_key(k) <==> m.contains_key(k) by {
        if m.contains_key(k) {
            let i = choose|i: int| 0 <= i < s.len() && s[i].0 == k;
            assert(listing_map(s).contains_key(s[i].0));
        }
        if listing_map(s).contains_key(k) {
            let i = choose|i: int| 0 <= i < s.len() && s[i].0 == k;
            assert(m.contains_key(s[i].0));
        }
    }
    assert forall|k: Seq<char>| #[trigger] listing_map(s).contains_key(k) implies listing_map(s)[k] == m[k] by {
        let i = choose|i: int| 0 <= i < s.len() && s[i].0 == k;
        assert(listing_map(s).contains_key(s[i].0));
        assert(m.contains_key(s[i].0));
    }
    assert(listing_map(s) =~= m);
}

/// Where `key` belongs in a strictly ascending entry list: every key before the returned
/// position is below `key`; the flag says whether the key at that position is `key` itself.
fn insertion_point(entries: &Vec<(String, String)>, key: &str) -> (r: (usize, bool))
    requires
        strictly_ascending(entries_view(entries@)),
    ensures
        r.0 <= entries@.len(),
        forall|j: int| 0 <= j < r.0 ==> name_lt(#[trigger] entries@[j].0@, key@),
        r.1 ==> r.0 < entries@.len() && entries@[r.0 as int].0@ == key@,
        !r.1 ==> r.0 == entries@.len() || name_lt(key@, entries@[r.0 as int].0@),
{
    let mut i: usize = 0;
    while i < entries.len()
        invariant
            i <= entries@.len(),
            forall|j: int| 0 <= j < i ==> name_lt(#[trigger] entries@[j].0@, key@),
        decreases entries@.len() - i,
    {
        let o = compare_names(entries[i].0.as_str(), key);
        if o == NameOrder::Equal {
            return (i, true);
        } else if o == NameOrder::Greater {
            return (i, false);
        }
        i = i + 1;
    }
    (i, false)
}

proof fn lemma_entries_view_index(s: Seq<(String, String)>, i: int)
    requires
        0 <= i < s.len(),
    ensures
        #[trigger] entries_view(s)[i] == (s[i].0@, s[i].1@),
        entries_view(s).len() == s.len(),
{
}

/// Inserting a key that is absent, at the position where it belongs, keeps the list
/// strictly ascending and lists the map with that key added.
proof fn lemma_insert_new(s: Seq<EntryView>, p: int, k: Seq<char>, v: Seq<char>)
    requires
        strictly_ascending(s),
        0 <= p <= s.len(),
        forall|j: int| 0 <= j < p ==> name_lt(#[trigger] s[j].0, k),
        p < s.len() ==> name_lt(k, s[p].0),
    ensures
        strictly_ascending(s.insert(p, (k, v))),
        listing_map(s.insert(p, (k, v))) == listing_map(s).insert(k, v),
        !listing_map(s).contains_key(k),
{
    let t = s.insert(p, (k, v));
    let m = listing_map(s);
    lemma_listing_map_entries(s);
    assert forall|j: int| p <= j < s.len() implies name_lt(k, #[trigger] s[j].0) by {
        if j > p {
            lemma_name_lt_transitive(k, s[p].0, s[j].0);
        }
    }
    assert(!m.contains_key(k)) by {
        if m.contains_key(k) {
            let q = choose|q: int| 0 <= q < s.len() && s[q].0 == k;
            lemma_name_lt_irreflexive(k);
            if q < p {
                assert(name_lt(s[q].0, k));
            } else {
                assert(name_lt(k, s[q].0));
            }
        }
    }
    assert forall|i: int, j: int| 0 <= i < j < t.len() implies name_lt(#[trigger] t[i].0, #[trigger] t[j].0) by {
        if j < p {
            assert(t[i] == s[i] && t[j] == s[j]);
        } else if j == p {
            assert(t[i] == s[i] && t[j] == (k, v));
        } else if i < p {
            assert(t[i] == s[i] && t[j] == s[j - 1]);
        } else if i == p {
            assert(t[i] == (k, v) && t[j] == s[j - 1]);
        } else {
            assert(t[i] == s[i - 1] && t[j] == s[j - 1]);
        }
    }
    let m2 = m.insert(k, v);
    assert forall|i: int| 0 <= i < t.len() implies #[trigger] m2.contains_key(t[i].0) && m2[t[i].0]
        == t[i].1 by {
        if i < p {
            assert(t[i] == s[i]);
            assert(m.contains_key(s[i].0));
        } else if i > p {
            assert(t[i] == s[i - 1]);
            assert(m.contains_key(s[i - 1].0));
        }
    }
    assert forall|q: Seq<char>| #[trigger] m2.contains_key(q) implies exists|i: int|
        0 <= i < t.len() && t[i].0 == q by {
        if q == k {
            assert(t[p].0 == q);
        } else {
            let i = choose|i: int| 0 <= i < s.len() && s[i].0 == q;
            if i < p {
                assert(t[i] == s[i]);
            } else {
                assert(t[i + 1] == s[i]);
            }
        }
    }
    lemma_listing_map_unique(t, m2);
}

/// Replacing the value of a key that is present keeps the list strictly ascending and lists
/// the map with that key's value replaced.
proof fn lemma_replace(s: Seq<EntryView>, p: int, k: Seq<char>, v: Seq<char>)
    requires
        strictly_ascending(s),
        0 <= p < s.len(),
        s[p].0 == k,
    ensures
        strictly_ascending(s.update(p, (k, v))),
        listing_map(s.update(p, (k, v))) == listing_map(s).insert(k, v),
{
    let t = s.update(p, (k, v));
    let m = listing_map(s);
    lemma_listing_map_entries(s);
    assert forall|i: int, j: int| 0 <= i < j < t.len() implies name_lt(#[trigger] t[i].0, #[trigger] t[j].0) by {
        assert(t[i].0 == s[i].0 && t[j].0 == s[j].0);
    }
    let m2 = m.insert(k, v);
    assert forall|i: int| 0 <= i < t.len() implies #[trigger] m2.contains_key(t[i].0) && m2[t[i].0]
        == t[i].1 by {
        if i != p {
            assert(t[i] == s[i]);
            assert(m.contains_key(s[i].0));
            lemma_name_lt_irreflexive(k);
            if i < p {
                assert(name_lt(s[i].0, s[p].0));
            } else {
                assert(name_lt(s[p].0, s[i].0));
            }
        }
    }
    assert forall|q: Seq<char>| #[trigger] m2.contains_key(q) implies exists|i: int|
        0 <= i < t.len() && t[i].0 == q by {
        if q == k {
            assert(t[p].0 == q);
        } else {
            let i = choose|i: int| 0 <= i < s.len() && s[i].0 == q;
            assert(t[i] == s[i]);
        }
    }
    lemma_listing_map_unique(t, m2);
}

/// Dropping the first entry of a strictly ascending list lists the map without that key.
proof fn lemma_listing_map_drop_first(s: Seq<EntryView>)
    requires
        strictly_ascending(s),
        s.len() > 0,
    ensures
        strictly_ascending(s.drop_first()),
        listing_map(s.drop_first()) == listing_map(s).remove(s[0].0),
{
    let t = s.drop_first();
    let m = listing_map(s).remove(s[0].0);
    lemma_listing_map_entries(s);
    assert forall|i: int, j: int| 0 <= i < j < t.len() implies name_lt(#[trigger] t[i].0, #[trigger] t[j].0) by {
        assert(t[i] == s[i + 1] && t[j] == s[j + 1]);
    }
    assert forall|i: int| 0 <= i < t.len() implies #[trigger] m.contains_key(t[i].0) && m[t[i].0] == t[i].1 by {
        assert(t[i] == s[i + 1]);
        assert(name_lt(s[0].0, s[i + 1].0));
        lemma_name_lt_irreflexive(s[0].0);
        lemma_listing_map_at(s, i + 1);
    }
    assert forall|q: Seq<char>| #[trigger] m.contains_key(q) implies exists|i: int| 0 <= i < t.len() && t[i].0 == q by {
        let i = choose|i: int| 0 <= i < s.len() && s[i].0 == q;
        assert(i != 0);
        assert(t[i - 1] == s[i]);
    }
    lemma_listing_map_unique(t, m);
}

/// Two strictly ascending lists that list the same map are the same list.
pub proof fn lemma_listing_unique(s: Seq<EntryView>, t: Seq<EntryView>)
    requires
        strictly_ascending(s),
        strictly_ascending(t),
        listing_map(s) == listing_map(t),
    ensures
        s == t,
    decreases s.len(),
{
    lemma_listing_map_entries(s);
    lemma_listing_map_entries(t);
    if s.len() == 0 {
        if t.len() > 0 {
            assert(listing_map(t).contains_key(t[0].0));
        }
        assert(s =~= t);
    } else {
        assert(listing_map(s).contains_key(s[0].0));
        let j = choose|j: int| 0 <= j < t.len() && t[j].0 == s[0].0;
        assert(listing_map(t).contains_key(t[0].0));
        let i = choose|i: int| 0 <= i < s.len() && s[i].0 == t[0].0;
        lemma_name_lt_irreflexive(s[0].0);
        if j > 0 {
            assert(name_lt(t[0].0, t[j].0));
            if i > 0 {
                assert(name_lt(s[0].0, s[i].0));
                lemma_name_lt_asymmetric(s[0].0, t[0].0);
            }
        }
        assert(s[0].0 == t[0].0);
        assert(s[0].1 == listing_map(s)[s[0].0]);
        assert(t[0].1 == listing_map(t)[t[0].0]);
        lemma_listing_map_drop_first(s);
        lemma_listing_map_drop_first(t);
        lemma_listing_unique(s.drop_first(), t.drop_first());
        assert forall|k: int| 0 <= k < s.len() implies s[k] == t[k] by {
            if k > 0 {
                assert(s[k] == s.drop_first()[k - 1]);
                assert(t[k] == t.drop_first()[k - 1]);
            }
        }
        assert(s =~= t);
    }
}

/// The strictly ascending list of the entries of a map.
pub open spec fn sorted_listing(m: Map<Seq<char>, Seq<char>>) -> Seq<EntryView> {
    choose|s: Seq<EntryView>| strictly_ascending(s) && listing_map(s) == m
}

/// A strictly ascending list is the sorted listing of the map it lists.
pub proof fn lemma_sorted_listing(s: Seq<EntryView>)
    requires
        strictly_ascending(s),
    ensures
        sorted_listing(listing_map(s)) == s,
{
    let m = listing_map(s);
    assert(strictly_ascending(s) && listing_map(s) == m);
    let t = sorted_listing(m);
    lemma_listing_unique(s, t);
}

/// For a list whose keys are distinct, inserting the pairs one by one builds the map it lists.
pub proof fn lemma_fold_ascending(s: Seq<EntryView>)
    requires
        strictly_ascending(s),
    ensures
        fold_pairs(s) == listing_map(s),
    decreases s.len(),
{
    if s.len() == 0 {
        assert(listing_map(s) =~= Map::<Seq<char>, Seq<char>>::empty());
    } else {
        let t = s.drop_last();
        assert forall|i: int, j: int| 0 <= i < j < t.len() implies name_lt(#[trigger] t[i].0, #[trigger] t[j].0) by {
            assert(t[i] == s[i] && t[j] == s[j]);
        }
        lemma_fold_ascending(t);
        let n = (s.len() - 1) as int;
        assert forall|j: int| 0 <= j < t.len() implies name_lt(#[trigger] t[j].0, s[n].0) by {
            assert(t[j] == s[j]);
        }
        lemma_insert_new(t, n, s[n].0, s[n].1);
        assert(t.insert(n, (s[n].0, s[n].1)) =~= s);
    }
}

/// Inserting pairs one by one leaves each key with the value of its last pair: the key of
/// pair `i`, when no later pair has that key, maps to the value of pair `i`.
pub proof fn lemma_fold_last_wins(s: Seq<EntryView>, i: int)
    requires
        0 <= i < s.len(),
        forall|j: int| i < j < s.len() ==> #[trigger] s[j].0 != s[i].0,
    ensures
        fold_pairs(s).contains_key(s[i].0),
        fold_pairs(s)[s[i].0] == s[i].1,
    decreases s.len(),
{
    let n = s.len() - 1;
    if i < n {
        let t = s.drop_last();
        assert forall|j: int| i < j < t.len() implies #[trigger] t[j].0 != t[i].0 by {
            assert(t[j] == s[j] && t[i] == s[i]);
        }
        lemma_fold_last_wins(t, i);
        assert(t[i] == s[i]);
        assert(s[n].0 != s[i].0);
    }
}

/// Inserting pairs one by one holds no key that no pair has.
pub proof fn lemma_fold_keys(s: Seq<EntryView>, k: Seq<char>)
    requires
        fold_pairs(s).contains_key(k),
    ensures
        exists|i: int| 0 <= i < s.len() && s[i].0 == k,
    decreases s.len(),
{
    let n = s.len() - 1;
    if s[n].0 != k {
        lemma_fold_keys(s.drop_last(), k);
        let i = choose|i: int| 0 <= i < s.drop_last().len() && s.drop_last()[i].0 == k;
        assert(s[i] == s.drop_last()[i]);
    }
}

/// For a list without repeated keys, inserting the pairs one by one builds the map it lists.
pub proof fn lemma_fold_distinct(s: Seq<EntryView>)
    requires
        distinct_keys(s),
    ensures
        fold_pairs(s) == listing_map(s),
    decreases s.len(),
{
    if s.len() == 0 {
        assert(listing_map(s) =~= Map::<Seq<char>, Seq<char>>::empty());
    } else {
        let t = s.drop_last();
        let n = (s.len() - 1) as int;
        assert forall|i: int, j: int| 0 <= i < j < t.len() implies #[trigger] t[i].0 != #[trigger] t[j].0 by {
            assert(t[i] == s[i] && t[j] == s[j]);
        }
        lemma_fold_distinct(t);
        lemma_listing_map_entries(t);
        let m = listing_map(t).insert(s[n].0, s[n].1);
        assert forall|i: int| 0 <= i < s.len() implies #[trigger] m.contains_key(s[i].0) && m[s[i].0] == s[i].1 by {
            if i < n {
                assert(t[i] == s[i]);
                assert(s[i].0 != s[n].0);
            }
        }
        assert forall|q: Seq<char>| #[trigger] m.contains_key(q) implies exists|i: int| 0 <= i < s.len() && s[i].0 == q by {
            if q == s[n].0 {
                assert(s[n].0 == q);
            } else {
                let i = choose|i: int| 0 <= i < t.len() && t[i].0 == q;
                assert(s[i] == t[i]);
            }
        }
        lemma_listing_map_unique(s, m);
    }
}

/// Two lists without repeated keys that hold the same entries, each equally often, list the
/// same map.
pub proof fn lemma_listing_map_reordered(s1: Seq<EntryView>, s2: Seq<EntryView>)
    requires
        distinct_keys(s1),
        distinct_keys(s2),
        s1.to_multiset() == s2.to_multiset(),
    ensures
        listing_map(s1) == listing_map(s2),
{
    broadcast use vstd::seq_lib::group_to_multiset_ensures;

    lemma_listing_map_entries(s1);
    let m = listing_map(s1);
    assert forall|i: int| 0 <= i < s2.len() implies #[trigger] m.contains_key(s2[i].0) && m[s2[i].0] == s2[i].1 by {
        assert(s2.contains(s2[i]));
        assert(s2.to_multiset().count(s2[i]) > 0);
        assert(s1.to_multiset().count(s2[i]) > 0);
        assert(s1.contains(s2[i]));
        let a = choose|a: int| 0 <= a < s1.len() && s1[a] == s2[i];
        assert(s1[a] == s2[i]);
    }
    assert forall|q: Seq<char>| #[trigger] m.contains_key(q) implies exists|i: int| 0 <= i < s2.len() && s2[i].0 == q by {
        let a = choose|a: int| 0 <= a < s1.len() && s1[a].0 == q;
        assert(s1.contains(s1[a]));
        assert(s1.to_multiset().count(s1[a]) > 0);
        assert(s2.to_multiset().count(s1[a]) > 0);
        assert(s2.contains(s1[a]));
        let i = choose|i: int| 0 <= i < s2.len() && s2[i] == s1[a];
        assert(s2[i].0 == q);
    }
    lemma_listing_map_unique(s2, m);
}

/// Where an absent key belongs in a strictly ascending list: a position before which every
/// key is below it, and at which (if anywhere) a key above it stands.
proof fn lemma_position_for(s: Seq<EntryView>, k: Seq<char>) -> (p: int)
    requires
        strictly_ascending(s),
        forall|i: int| 0 <= i < s.len() ==> #[trigger] s[i].0 != k,
    ensures
        0 <= p <= s.len(),
        forall|j: int| 0 <= j < p ==> name_lt(#[trigger] s[j].0, k),
        p < s.len() ==> name_lt(k, s[p].0),
    decreases s.len(),
{
    if s.len() == 0 {
        0
    } else {
        let n = s.len() - 1;
        if name_lt(s[n].0, k) {
            assert forall|j: int| 0 <= j < s.len() implies name_lt(#[trigger] s[j].0, k) by {
                if j < n {
                    lemma_name_lt_transitive(s[j].0, s[n].0, k);
                }
            }
            s.len() as int
        } else {
            let t = s.drop_last();
            assert forall|i: int, j: int| 0 <= i < j < t.len() implies name_lt(#[trigger] t[i].0, #[trigger] t[j].0) by {
                assert(t[i] == s[i] && t[j] == s[j]);
            }
            assert forall|i: int| 0 <= i < t.len() implies #[trigger] t[i].0 != k by {
                assert(t[i] == s[i]);
            }
            let p = lemma_position_for(t, k);
            if p == n {
                lemma_name_lt_total(s[n].0, k);
            } else {
                assert(t[p] == s[p]);
            }
            assert forall|j: int| 0 <= j < p implies name_lt(#[trigger] s[j].0, k) by {
                assert(t[j] == s[j]);
            }
            p
        }
    }
}

/// Every finite map has a sorted listing.
pub proof fn lemma_sorted_listing_exists(m: Map<Seq<char>, Seq<char>>)
    requires
        m.dom().finite(),
    ensures
        strictly_ascending(sorted_listing(m)),
        listing_map(sorted_listing(m)) == m,
    decreases m.dom().len(),
{
    if m.dom().len() == 0 {
        let s = Seq::<EntryView>::empty();
        assert(m.dom() =~= Set::<Seq<char>>::empty()) by {
            if exists|k: Seq<char>| m.dom().contains(k) {
                let k = choose|k: Seq<char>| m.dom().contains(k);
                vstd::set_lib::lemma_set_empty_equivalency_len(m.dom());
            }
        }
        assert(listing_map(s) =~= m);
        assert(strictly_ascending(s) && listing_map(s) == m);
    } else {
        let k = m.dom().choose();
        assert(m.dom().contains(k)) by {
            if !m.dom().contains(k) {
                vstd::set_lib::lemma_set_empty_equivalency_len(m.dom());
            }
        }
        let rest = m.remove(k);
        assert(rest.dom() =~= m.dom().remove(k));
        lemma_sorted_listing_exists(rest);
        let s = sorted_listing(rest);
        lemma_listing_map_entries(s);
        assert forall|i: int| 0 <= i < s.len() implies #[trigger] s[i].0 != k by {
            assert(rest.contains_key(s[i].0));
        }
        let p = lemma_position_for(s, k);
        lemma_insert_new(s, p, k, m[k]);
        let t = s.insert(p, (k, m[k]));
        assert(listing_map(t) =~= m);
        assert(strictly_ascending(t) && listing_map(t) == m);
    }
}

/// The map that a list lists is finite.
pub proof fn lemma_listing_map_finite(s: Seq<EntryView>)
    ensures
        listing_map(s).dom().finite(),
{
    let keys = s.map_values(|e: EntryView| e.0);
    assert forall|k: Seq<char>| listing_map(s).dom().contains(k) implies keys.to_set().contains(k) by {
        let i = choose|i: int| 0 <= i < s.len() && s[i].0 == k;
        assert(keys[i] == k);
    }
    vstd::seq_lib::seq_to_set_is_finite(keys);
    vstd::set_lib::lemma_len_subset(listing_map(s).dom(), keys.to_set());
}

/// A map built by inserting pairs one by one is finite.
pub proof fn lemma_fold_pairs_finite(s: Seq<EntryView>)
    ensures
        fold_pairs(s).dom().finite(),
    decreases s.len(),
{
    if s.len() > 0 {
        lemma_fold_pairs_finite(s.drop_last());
    }
}

/// A map from strings to strings whose entries are kept in ascending key order.
pub struct StringMap {
    entries: Vec<(String, String)>,
}

impl StringMap {
    #[verifier::type_invariant]
    closed spec fn keys_ascend(&self) -> bool {
        strictly_ascending(entries_view(self.entries@))
    }
}

impl View for StringMap {
    type V = Map<Seq<char>, Seq<char>>;

    closed spec fn view(&self) -> Map<Seq<char>, Seq<char>> {
        listing_map(entries_view(self.entries@))
    }
}

impl StringMap {
    /// A map of strings holds finitely many keys.
    pub proof fn lemma_finite(&self)
        ensures
            self@.dom().finite(),
    {
        lemma_listing_map_finite(entries_view(self.entries@));
    }

    /// An empty map.
    pub fn new() -> (m: StringMap)
        ensures
            m@ == Map::<Seq<char>, Seq<char>>::empty(),
            m@.dom().finite(),
    {
        let m = StringMap { entries: Vec::new() };
        proof {
            m.lemma_finite();
        }
        assert(entries_view(m.entries@) =~= Seq::<EntryView>::empty());
        assert(listing_map(entries_view(m.entries@)) =~= Map::<Seq<char>, Seq<char>>::empty());
        m
    }

    /// Stores `value` under `key`, replacing the value that was there.
    pub fn insert(&mut self, key: String, value: String)
        ensures
            final(self)@ == old(self)@.insert(key@, value@),
            final(self)@.dom().finite(),
    {
        proof {
            use_type_invariant(&*self);
        }
        let ghost s = entries_view(self.entries@);
        let mut entries: Vec<(String, String)> = Vec::new();
        std::mem::swap(&mut entries, &mut self.entries);
        assert(entries_view(entries@) == s);
        let (p, found) = insertion_point(&entries, key.as_str());
        let ghost k = key@;
        let ghost v = value@;
        if found {
            proof {
                lemma_entries_view_index(entries@, p as int);
                lemma_replace(s, p as int, k, v);
            }
            entries.set(p, (key, value));
            assert(entries_view(entries@) =~= s.update(p as int, (k, v)));
        } else {
            proof {
                assert forall|j: int| 0 <= j < p implies name_lt(#[trigger] s[j].0, k) by {
                    lemma_entries_view_index(entries@, j);
                }
                if p < entries@.len() {
                    lemma_entries_view_index(entries@, p as int);
                }
                lemma_insert_new(s, p as int, k, v);
            }
            entries.insert(p, (key, value));
            assert(entries_view(entries@) =~= s.insert(p as int, (k, v)));
        }
        self.entries = entries;
        proof {
            self.lemma_finite();
        }
    }

    /// The map built by inserting the pairs in order; of two pairs with the same key, the
    /// later one wins.
    pub fn from_pairs(pairs: &Vec<(String, String)>) -> (m: StringMap)
        ensures
            m@ == fold_pairs(entries_view(pairs@)),
            m@.dom().finite(),
    {
        let ghost pv = entries_view(pairs@);
        let mut m = StringMap::new();
        let mut i: usize = 0;
        assert(pv.take(0) =~= Seq::<EntryView>::empty());
        while i < pairs.len()
            invariant
                i <= pairs@.len(),
                pv == entries_view(pairs@),
                m@ == fold_pairs(pv.take(i as int)),
            decreases pairs@.len() - i,
        {
            m.insert(pairs[i].0.clone(), pairs[i].1.clone());
            proof {
                lemma_entries_view_index(pairs@, i as int);
                assert(pv.take(i as int + 1).drop_last() =~= pv.take(i as int));
            }
            i = i + 1;
        }
        assert(pv.take(i as int) =~= pv);
        proof {
            m.lemma_finite();
        }
        m
    }

    /// Stores every entry of `other`, each replacing the value already under its key.
    pub fn extend(&mut self, other: &StringMap)
        ensures
            final(self)@ == old(self)@.union_prefer_right(other@),
            final(self)@.dom().finite(),
    {
        proof {
            use_type_invariant(other);
        }
        let ghost ov = entries_view(other.entries@);
        let ghost start = self@;
        let mut i: usize = 0;
        assert(start.union_prefer_right(fold_pairs(ov.take(0))) =~= start) by {
            assert(ov.take(0) =~= Seq::<EntryView>::empty());
        }
        while i < other.entries.len()
            invariant
                i <= other.entries@.len(),
                ov == entries_view(other.entries@),
                self@ == start.union_prefer_right(fold_pairs(ov.take(i as int))),
            decreases other.entries@.len() - i,
        {
            let ghost before = fold_pairs(ov.take(i as int));
            self.insert(other.entries[i].0.clone(), other.entries[i].1.clone());
            proof {
                lemma_entries_view_index(other.entries@, i as int);
                assert(ov.take(i as int + 1).drop_last() =~= ov.take(i as int));
                assert(fold_pairs(ov.take(i as int + 1)) == before.insert(ov[i as int].0, ov[i as int].1));
                assert(self@ =~= start.union_prefer_right(fold_pairs(ov.take(i as int + 1))));
            }
            i = i + 1;
        }
        proof {
            assert(ov.take(i as int) =~= ov);
            lemma_fold_ascending(ov);
            self.lemma_finite();
        }
    }

    /// The entries, in strictly ascending key order.
    pub fn into_entries(self) -> (r: Vec<(String, String)>)
        ensures
            entries_view(r@) == sorted_listing(self@),
            strictly_ascending(entries_view(r@)),
            listing_map(entries_view(r@)) == self@,
    {
        proof {
            use_type_invariant(&self);
            lemma_sorted_listing(entries_view(self.entries@));
        }
        self.entries
    }

    /// The number of keys.
    pub fn len(&self) -> (n: usize)
        ensures
            n == self@.dom().len(),
            self@.dom().finite(),
    {
        proof {
            self.lemma_finite();
            use_type_invariant(self);
            self.lemma_len();
        }
        self.entries.len()
    }

    proof fn lemma_len(&self)
        requires
            strictly_ascending(entries_view(self.entries@)),
        ensures
            self@.dom().len() == self.entries@.len(),
    {
        let s = entries_view(self.entries@);
        let keys = s.map_values(|e: EntryView| e.0);
        lemma_listing_map_entries(s);
        assert forall|i: int, j: int| 0 <= i < keys.len() && 0 <= j < keys.len() && i != j implies keys[i]
            != keys[j] by {
            lemma_name_lt_irreflexive(keys[i]);
            if i < j {
                assert(name_lt(s[i].0, s[j].0));
            } else {
                assert(name_lt(s[j].0, s[i].0));
            }
        }
        assert(keys.no_duplicates());
        keys.unique_seq_to_set();
        assert forall|k: Seq<char>| self@.dom().contains(k) <==> keys.to_set().contains(k) by {
            if self@.dom().contains(k) {
                let i = choose|i: int| 0 <= i < s.len() && s[i].0 == k;
                assert(keys[i] == k);
            }
            if keys.to_set().contains(k) {
                let i = choose|i: int| 0 <= i < keys.len() && keys[i] == k;
                assert(self@.contains_key(s[i].0));
            }
        }
        assert(self@.dom() =~= keys.to_set());
    }

    /// Whether the map holds no key.
    pub fn is_empty(&self) -> (b: bool)
        ensures
            b <==> self@.dom().len() == 0,
            self@.dom().finite(),
    {
        self.len() == 0
    }

    /// The index of `key` in the entry list, if it is there.
    fn find(&self, key: &str) -> (r: Option<usize>)
        ensures
            match r {
                Some(i) => i < self.entries@.len() && self.entries@[i as int].0@ == key@,
                None => !self@.contains_key(key@),
            },
    {
        proof {
            use_type_invariant(self);
            lemma_listing_map_entries(entries_view(self.entries@));
        }
        let mut i: usize = 0;
        while i < self.entries.len()
            invariant
                i <= self.entries@.len(),
                forall|j: int| 0 <= j < i ==> self.entries@[j].0@ != key@,
            decreases self.entries@.len() - i,
        {
            if compare_names(self.entries[i].0.as_str(), key) == NameOrder::Equal {
                return Some(i);
            }
            i = i + 1;
        }
        proof {
            if self@.contains_key(key@) {
                let s = entries_view(self.entries@);
                let j = choose|j: int| 0 <= j < s.len() && s[j].0 == key@;
                assert(self.entries@[j].0@ == key@);
            }
        }
        None
    }

    /// The value stored under `key`, if any.
    pub fn get(&self, key: &str) -> (r: Option<&String>)
        ensures
            r is Some <==> self@.contains_key(key@),
            r matches Some(v) ==> v@ == self@[key@],
            self@.dom().finite(),
    {
        proof {
            self.lemma_finite();
            use_type_invariant(self);
            lemma_listing_map_entries(entries_view(self.entries@));
        }
        match self.find(key) {
            Some(i) => {
                assert(entries_view(self.entries@)[i as int].0 == key@);
                Some(&self.entries[i].1)
            },
            None => None,
        }
    }

    /// Whether `key` is present.
    pub fn contains_key(&self, key: &str) -> (b: bool)
        ensures
            b <==> self@.contains_key(key@),
            self@.dom().finite(),
    {
        proof {
            self.lemma_finite();
            use_type_invariant(self);
            lemma_listing_map_entries(entries_view(self.entries@));
        }
        match self.find(key) {
            Some(i) => {
                assert(entries_view(self.entries@)[i as int].0 == key@);
                true
            },
            None => false,
        }
    }
}

impl Clone for StringMap {
    fn clone(&self) -> (c: StringMap)
        ensures
            c@ == self@,
            c@.dom().finite(),
    {
        proof {
            self.lemma_finite();
            use_type_invariant(self);
        }
        let ghost sv = entries_view(self.entries@);
        let mut entries: Vec<(String, String)> = Vec::new();
        let mut i: usize = 0;
        while i < self.entries.len()
            invariant
                i <= self.entries@.len(),
                sv == entries_view(self.entries@),
                entries@.len() == i,
                entries_view(entries@) == sv.take(i as int),
            decreases self.entries@.len() - i,
        {
            let ghost old_entries = entries@;
            entries.push((self.entries[i].0.clone(), self.entries[i].1.clone()));
            proof {
                lemma_entries_view_index(self.entries@, i as int);
                assert forall|k: int| 0 <= k <= i implies #[trigger] entries_view(entries@)[k] == sv.take(
                    i as int + 1,
                )[k] by {
                    lemma_entries_view_index(entries@, k);
                    if k < i {
                        assert(entries_view(old_entries)[k] == sv.take(i as int)[k]);
                        lemma_entries_view_index(old_entries, k);
                    }
                }
                assert(entries_view(entries@) =~= sv.take(i as int + 1));
            }
            i = i + 1;
        }
        assert(sv.take(i as int) =~= sv);
        StringMap { entries }
    }
}

} // verus!
