//! Insertion-ordered maps from names to values, held in the
//! `linked_hash_map` crate's `LinkedHashMap`.
//!
//! The contents of a map are named as the sequence of its entries in the
//! order in which the map walks them: oldest insertion first. Inserting a
//! key that is already present replaces its value and moves the entry to the
//! end of that order.

use vstd::prelude::*;
use linked_hash_map::LinkedHashMap;
use crate::paste_url::{PasteUrl, UrlView};

verus! {

#[verifier::external_type_specification]
#[verifier::external_body]
#[verifier::reject_recursive_types(K)]
#[verifier::reject_recursive_types(V)]
#[verifier::reject_recursive_types(S)]
pub struct ExLinkedHashMap<K, V, S>(LinkedHashMap<K, V, S>);

// ----------------------------------------------------------------------------
// Entry sequences
// ----------------------------------------------------------------------------

/// No key occurs twice among the entries.
pub open spec fn keys_distinct<X>(s: Seq<(Seq<char>, X)>) -> bool {
    forall|i: int, j: int| 0 <= i < j < s.len() ==> (#[trigger] s[i]).0 != (#[trigger] s[j]).0
}

/// The entries without the one for key `k`.
pub open spec fn remove_key<X>(s: Seq<(Seq<char>, X)>, k: Seq<char>) -> Seq<(Seq<char>, X)>
    decreases s.len(),
{
    if s.len() == 0 {
        s
    } else if s.last().0 == k {
        remove_key(s.drop_last(), k)
    } else {
        remove_key(s.drop_last(), k).push(s.last())
    }
}

/// The entries after inserting `(k, v)`: any entry for `k` leaves its place,
/// and the new entry comes last.
pub open spec fn entry_insert<X>(s: Seq<(Seq<char>, X)>, k: Seq<char>, v: X) -> Seq<(Seq<char>, X)> {
    remove_key(s, k).push((k, v))
}

/// The value stored for key `k`, if any.
pub open spec fn assoc<X>(s: Seq<(Seq<char>, X)>, k: Seq<char>) -> Option<X>
    decreases s.len(),
{
    if s.len() == 0 {
        None
    } else if s.last().0 == k {
        Some(s.last().1)
    } else {
        assoc(s.drop_last(), k)
    }
}

/// The entries of a map built by inserting `pairs` in order into an empty map.
pub open spec fn insert_all<X>(pairs: Seq<(Seq<char>, X)>) -> Seq<(Seq<char>, X)>
    decreases pairs.len(),
{
    if pairs.len() == 0 {
        Seq::empty()
    } else {
        entry_insert(insert_all(pairs.drop_last()), pairs.last().0, pairs.last().1)
    }
}

/// Removing a key that does not occur changes nothing.
pub proof fn lemma_remove_absent<X>(s: Seq<(Seq<char>, X)>, k: Seq<char>)
    requires
        forall|i: int| 0 <= i < s.len() ==> (#[trigger] s[i]).0 != k,
    ensures
        remove_key(s, k) == s,
    decreases s.len(),
{
    if s.len() > 0 {
        lemma_remove_absent(s.drop_last(), k);
        assert(s.drop_last().push(s.last()) == s);
    }
}

/// Inserting pairs whose keys are distinct into an empty map keeps them all,
/// in their order.
pub proof fn lemma_insert_all_distinct<X>(pairs: Seq<(Seq<char>, X)>)
    requires
        keys_distinct(pairs),
    ensures
        insert_all(pairs) == pairs,
    decreases pairs.len(),
{
    if pairs.len() > 0 {
        let p = pairs.drop_last();
        assert(keys_distinct(p)) by {
            assert forall|i: int, j: int| 0 <= i < j < p.len() implies (#[trigger] p[i]).0
                != (#[trigger] p[j]).0 by {
                assert(p[i] == pairs[i] && p[j] == pairs[j]);
            }
        }
        lemma_insert_all_distinct(p);
        assert forall|i: int| 0 <= i < p.len() implies (#[trigger] p[i]).0 != pairs.last().0 by {
            assert(p[i] == pairs[i]);
            assert(pairs.last() == pairs[pairs.len() - 1]);
        }
        lemma_remove_absent(p, pairs.last().0);
        assert(p.push(pairs.last()) == pairs);
    }
}

/// What stays after removing a key was there before, and is not for that key.
pub proof fn lemma_remove_key_subset<X>(s: Seq<(Seq<char>, X)>, k: Seq<char>)
    ensures
        forall|i: int| 0 <= i < remove_key(s, k).len() ==> s.contains(#[trigger] remove_key(s, k)[i])
            && remove_key(s, k)[i].0 != k,
    decreases s.len(),
{
    if s.len() > 0 {
        let p = s.drop_last();
        lemma_remove_key_subset(p, k);
        let r = remove_key(s, k);
        assert forall|i: int| 0 <= i < r.len() implies s.contains(#[trigger] r[i]) && r[i].0 != k by {
            if s.last().0 == k || i < remove_key(p, k).len() {
                assert(r[i] == remove_key(p, k)[i]);
                assert(p.contains(r[i]));
                let j = choose|j: int| 0 <= j < p.len() && p[j] == r[i];
                assert(s[j] == p[j]);
            } else {
                assert(r[i] == s.last());
                assert(s[s.len() - 1] == s.last());
            }
        }
    }
}

/// A value found for a key is stored under that key.
pub proof fn lemma_assoc_in<X>(s: Seq<(Seq<char>, X)>, k: Seq<char>)
    requires
        assoc(s, k) is Some,
    ensures
        s.contains((k, assoc(s, k)->Some_0)),
    decreases s.len(),
{
    if s.last().0 == k {
        assert(s[s.len() - 1] == s.last());
    } else {
        lemma_assoc_in(s.drop_last(), k);
        let j = choose|j: int| 0 <= j < s.drop_last().len() && s.drop_last()[j] == (k, assoc(s, k)->Some_0);
        assert(s[j] == s.drop_last()[j]);
    }
}

/// Removing one key leaves what is stored for every other key.
pub proof fn lemma_assoc_remove_other<X>(s: Seq<(Seq<char>, X)>, k: Seq<char>, q: Seq<char>)
    requires
        q != k,
    ensures
        assoc(remove_key(s, k), q) == assoc(s, q),
    decreases s.len(),
{
    if s.len() > 0 {
        lemma_assoc_remove_other(s.drop_last(), k, q);
        if s.last().0 != k {
            assert(remove_key(s, k).drop_last() =~= remove_key(s.drop_last(), k));
        }
    }
}

/// A value is stored for a key exactly when some entry has that key.
pub proof fn lemma_assoc_some<X>(s: Seq<(Seq<char>, X)>, k: Seq<char>)
    ensures
        assoc(s, k) is Some <==> exists|i: int| 0 <= i < s.len() && (#[trigger] s[i]).0 == k,
    decreases s.len(),
{
    if s.len() > 0 {
        lemma_assoc_some(s.drop_last(), k);
        if s.last().0 == k {
            assert(s[s.len() - 1].0 == k);
        } else if exists|i: int| 0 <= i < s.len() && (#[trigger] s[i]).0 == k {
            let i = choose|i: int| 0 <= i < s.len() && (#[trigger] s[i]).0 == k;
            assert(i != s.len() - 1);
            assert(s.drop_last()[i].0 == k);
        } else {
            assert forall|i: int| 0 <= i < s.drop_last().len() implies (#[trigger] s.drop_last()[i]).0 != k by {
                assert(s.drop_last()[i] == s[i]);
            }
        }
    }
}

/// Reading a map built by inserting pairs in order finds, for each key, the
/// value inserted last for it, and nothing for a key never inserted.
pub proof fn law_insert_all_finds_last<X>(pairs: Seq<(Seq<char>, X)>, k: Seq<char>)
    ensures
        assoc(insert_all(pairs), k) == assoc(pairs, k),
    decreases pairs.len(),
{
    if pairs.len() > 0 {
        law_insert_all_finds_last(pairs.drop_last(), k);
        let r = remove_key(insert_all(pairs.drop_last()), pairs.last().0);
        assert(insert_all(pairs).drop_last() =~= r);
        if pairs.last().0 != k {
            lemma_assoc_remove_other(insert_all(pairs.drop_last()), pairs.last().0, k);
        }
    }
}

/// Every entry of a map built by inserting pairs is one of the pairs.
pub proof fn lemma_insert_all_subset<X>(pairs: Seq<(Seq<char>, X)>)
    ensures
        forall|i: int| 0 <= i < insert_all(pairs).len() ==> pairs.contains(#[trigger] insert_all(pairs)[i]),
    decreases pairs.len(),
{
    if pairs.len() > 0 {
        let p = pairs.drop_last();
        lemma_insert_all_subset(p);
        let before = insert_all(p);
        lemma_remove_key_subset(before, pairs.last().0);
        let r = insert_all(pairs);
        assert forall|i: int| 0 <= i < r.len() implies pairs.contains(#[trigger] r[i]) by {
            let rk = remove_key(before, pairs.last().0);
            if i < rk.len() {
                assert(r[i] == rk[i]);
                assert(before.contains(r[i]));
                let j = choose|j: int| 0 <= j < before.len() && before[j] == r[i];
                assert(p.contains(before[j]));
                let m = choose|m: int| 0 <= m < p.len() && p[m] == before[j];
                assert(pairs[m] == p[m]);
            } else {
                assert(r[i] == pairs.last());
                assert(pairs[pairs.len() - 1] == pairs.last());
            }
        }
    }
}

// ----------------------------------------------------------------------------
// Maps from names to URLs
// ----------------------------------------------------------------------------

/// The entries of a map from names to URLs, in the order the map walks them.
pub uninterp spec fn url_map_contents(m: LinkedHashMap<String, PasteUrl>) -> Seq<(Seq<char>, UrlView)>;

/// `LinkedHashMap::new`: an empty map.
#[verifier::external_body]
pub(crate) fn url_map_new() -> (r: LinkedHashMap<String, PasteUrl>)
    ensures
        url_map_contents(r) == Seq::<(Seq<char>, UrlView)>::empty(),
{
    LinkedHashMap::new()
}

/// `LinkedHashMap::insert`: stores `v` for `k`; an earlier entry for `k`
/// leaves its place and the new entry comes last. Returns the value that was
/// stored for `k` before, if any. Keys stay distinct.
#[verifier::external_body]
pub(crate) fn url_map_insert(m: &mut LinkedHashMap<String, PasteUrl>, k: String, v: PasteUrl) -> (r: Option<PasteUrl>)
    ensures
        url_map_contents(*final(m)) == entry_insert(url_map_contents(*old(m)), k@, v@),
        keys_distinct(url_map_contents(*final(m))),
        match r {
            Some(x) => assoc(url_map_contents(*old(m)), k@) == Some(x@),
            None => assoc(url_map_contents(*old(m)), k@) is None,
        },
{
    m.insert(k, v)
}

/// `LinkedHashMap::iter`: the entries of the map, oldest insertion first.
/// Keys are distinct.
#[verifier::external_body]
pub(crate) fn url_map_entries(m: &LinkedHashMap<String, PasteUrl>) -> (r: Vec<(&String, &PasteUrl)>)
    ensures
        r@.map_values(|e: (&String, &PasteUrl)| (e.0@, e.1@)) == url_map_contents(*m),
        keys_distinct(r@.map_values(|e: (&String, &PasteUrl)| (e.0@, e.1@))),
{
    m.iter().collect()
}

// ----------------------------------------------------------------------------
// Maps from names to texts
// ----------------------------------------------------------------------------

/// The entries of a map from names to texts, in the order the map walks them.
pub uninterp spec fn text_map_contents(m: LinkedHashMap<String, String>) -> Seq<(Seq<char>, Seq<char>)>;

/// `LinkedHashMap::new`: an empty map.
#[verifier::external_body]
pub(crate) fn text_map_new() -> (r: LinkedHashMap<String, String>)
    ensures
        text_map_contents(r) == Seq::<(Seq<char>, Seq<char>)>::empty(),
{
    LinkedHashMap::new()
}

/// `LinkedHashMap::insert`: stores `v` for `k`; an earlier entry for `k`
/// leaves its place and the new entry comes last. Returns the value that was
/// stored for `k` before, if any. Keys stay distinct.
#[verifier::external_body]
pub(crate) fn text_map_insert(m: &mut LinkedHashMap<String, String>, k: String, v: String) -> (r: Option<String>)
    ensures
        text_map_contents(*final(m)) == entry_insert(text_map_contents(*old(m)), k@, v@),
        keys_distinct(text_map_contents(*final(m))),
        match r {
            Some(x) => assoc(text_map_contents(*old(m)), k@) == Some(x@),
            None => assoc(text_map_contents(*old(m)), k@) is None,
        },
{
    m.insert(k, v)
}

/// `LinkedHashMap::get`: the value stored for `k`, if any.
#[verifier::external_body]
pub(crate) fn text_map_get<'a>(m: &'a LinkedHashMap<String, String>, k: &String) -> (r: Option<&'a String>)
    ensures
        match r {
            Some(x) => assoc(text_map_contents(*m), k@) == Some(x@),
            None => assoc(text_map_contents(*m), k@) is None,
        },
{
    m.get(k)
}

/// `LinkedHashMap::iter`: the entries of the map, oldest insertion first.
/// Keys are distinct.
#[verifier::external_body]
pub(crate) fn text_map_entries(m: &LinkedHashMap<String, String>) -> (r: Vec<(&String, &String)>)
    ensures
        r@.map_values(|e: (&String, &String)| (e.0@, e.1@)) == text_map_contents(*m),
        keys_distinct(r@.map_values(|e: (&String, &String)| (e.0@, e.1@))),
{
    m.iter().collect()
}

} // verus!
