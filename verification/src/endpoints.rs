//! The ordered tables of endpoints: `indexmap::IndexMap` from a key to a service.
use indexmap::IndexMap;
use std::collections::HashSet;
use vstd::prelude::*;

verus! {

/// `indexmap::IndexMap`, an insertion-ordered hash map.
#[verifier::external_type_specification]
#[verifier::external_body]
#[verifier::reject_recursive_types(K)]
#[verifier::reject_recursive_types(V)]
#[verifier::reject_recursive_types(S)]
pub struct ExIndexMap<K, V, S>(indexmap::IndexMap<K, V, S>);

/// The pairs of a key and a service that a table holds, in the table's order.
pub uninterp spec fn entries(table: IndexMap<u64, u64>) -> Seq<(u64, u64)>;

/// Some entry of `s` has this key.
pub open spec fn has_key(s: Seq<(u64, u64)>, key: u64) -> bool {
    exists|i: int| 0 <= i < s.len() && (#[trigger] s[i]).0 == key
}

/// The position of an entry with this key.
pub open spec fn position(s: Seq<(u64, u64)>, key: u64) -> int {
    choose|i: int| 0 <= i < s.len() && (#[trigger] s[i]).0 == key
}

/// The service under this key, if there is one.
pub open spec fn service_of(s: Seq<(u64, u64)>, key: u64) -> Option<u64> {
    if has_key(s, key) {
        Some(s[position(s, key)].1)
    } else {
        None
    }
}

/// `s` with the service under `key` replaced in its place, or with the pair added at the end where
/// the key is new.
pub open spec fn inserted(s: Seq<(u64, u64)>, key: u64, service: u64) -> Seq<(u64, u64)> {
    if has_key(s, key) {
        s.update(position(s, key), (key, service))
    } else {
        s.push((key, service))
    }
}

/// `s` without its entry at `i`, whose place the last entry takes.
pub open spec fn swap_removed(s: Seq<(u64, u64)>, i: int) -> Seq<(u64, u64)> {
    s.update(i, s.last()).drop_last()
}

/// `s` without its entry for `key`, whose place the last entry takes.
pub open spec fn removed(s: Seq<(u64, u64)>, key: u64) -> Seq<(u64, u64)> {
    if has_key(s, key) {
        swap_removed(s, position(s, key))
    } else {
        s
    }
}

/// No key occurs twice.
pub open spec fn distinct(s: Seq<(u64, u64)>) -> bool {
    forall|i: int, j: int| 0 <= i < j < s.len() ==> (#[trigger] s[i]).0 != (#[trigger] s[j]).0
}

/// Where no key occurs twice, an entry is found under its key.
pub proof fn lemma_entry(s: Seq<(u64, u64)>, i: int)
    requires
        distinct(s),
        0 <= i < s.len(),
    ensures
        has_key(s, s[i].0),
        position(s, s[i].0) == i,
        service_of(s, s[i].0) == Some(s[i].1),
{
    let p = position(s, s[i].0);
    assert(0 <= p < s.len() && s[p].0 == s[i].0);
    if p < i {
        assert(s[p].0 != s[i].0);
    } else if i < p {
        assert(s[i].0 != s[p].0);
    }
}

/// Taking out an entry takes out its key and no other.
pub proof fn lemma_swap_removed(s: Seq<(u64, u64)>, i: int)
    requires
        distinct(s),
        0 <= i < s.len(),
    ensures
        distinct(swap_removed(s, i)),
        forall|key: u64| #[trigger]
            service_of(swap_removed(s, i), key) == (if key == s[i].0 {
                None
            } else {
                service_of(s, key)
            }),
        forall|key: u64| #[trigger]
            has_key(swap_removed(s, i), key) <==> has_key(s, key) && key != s[i].0,
{
    let r = swap_removed(s, i);
    assert forall|j: int| 0 <= j < r.len() implies #[trigger] r[j] == s[if j == i {
        s.len() - 1
    } else {
        j
    }] by {}
    assert forall|key: u64| #[trigger] service_of(r, key) == (if key == s[i].0 {
        None
    } else {
        service_of(s, key)
    }) && (has_key(r, key) <==> has_key(s, key) && key != s[i].0) by {
        if has_key(r, key) {
            let p = position(r, key);
            lemma_entry(s, if p == i {
                s.len() - 1
            } else {
                p
            });
            lemma_entry(s, i);
        }
        if has_key(s, key) && key != s[i].0 {
            let p = position(s, key);
            let q = if p == s.len() - 1 {
                i
            } else {
                p
            };
            assert(r[q] == s[p]);
            lemma_entry(r, q);
        }
    }
    assert forall|key: u64| #[trigger] has_key(r, key) <==> has_key(s, key) && key != s[i].0 by {
        assert(service_of(r, key) == (if key == s[i].0 {
            None
        } else {
            service_of(s, key)
        }));
    }
}

/// Removing a key takes out that key and no other.
pub proof fn lemma_removed(s: Seq<(u64, u64)>, key: u64)
    requires
        distinct(s),
    ensures
        distinct(removed(s, key)),
        forall|k: u64| #[trigger]
            service_of(removed(s, key), k) == (if k == key {
                None
            } else {
                service_of(s, k)
            }),
        forall|k: u64| #[trigger] has_key(removed(s, key), k) <==> has_key(s, k) && k != key,
{
    if has_key(s, key) {
        lemma_swap_removed(s, position(s, key));
    }
}

/// Inserting a key puts the service under that key and leaves the other keys alone.
pub proof fn lemma_inserted(s: Seq<(u64, u64)>, key: u64, service: u64)
    requires
        distinct(s),
    ensures
        distinct(inserted(s, key, service)),
        forall|k: u64| #[trigger]
            service_of(inserted(s, key, service), k) == (if k == key {
                Some(service)
            } else {
                service_of(s, k)
            }),
        forall|k: u64| #[trigger]
            has_key(inserted(s, key, service), k) <==> has_key(s, k) || k == key,
{
    let r = inserted(s, key, service);
    let at = if has_key(s, key) {
        position(s, key)
    } else {
        s.len() as int
    };
    assert(r[at] == (key, service));
    assert forall|j: int| 0 <= j < s.len() && j != at implies #[trigger] r[j] == s[j] by {}
    assert(distinct(r)) by {
        assert forall|i: int, j: int| 0 <= i < j < r.len() implies (#[trigger] r[i]).0 != (
        #[trigger] r[j]).0 by {
            if has_key(s, key) {
                lemma_entry(s, i);
                lemma_entry(s, j);
            }
        }
    }
    assert forall|k: u64| #[trigger] service_of(r, k) == (if k == key {
        Some(service)
    } else {
        service_of(s, k)
    }) && (has_key(r, k) <==> has_key(s, k) || k == key) by {
        lemma_entry(r, at);
        if has_key(s, k) && k != key {
            let p = position(s, k);
            assert(r[p] == s[p]);
            lemma_entry(r, p);
        }
        if has_key(r, k) && k != key {
            let p = position(r, k);
            lemma_entry(s, p);
        }
    }
    assert forall|k: u64| #[trigger] has_key(r, k) <==> has_key(s, k) || k == key by {
        assert(service_of(r, k) == (if k == key {
            Some(service)
        } else {
            service_of(s, k)
        }));
    }
}

/// `IndexMap::default`: a table without entries.
#[verifier::external_body]
pub(crate) fn table_default() -> (table: IndexMap<u64, u64>)
    ensures
        entries(table) == Seq::<(u64, u64)>::empty(),
{
    IndexMap::default()
}

/// `IndexMap::len`: the number of entries.
#[verifier::external_body]
pub(crate) fn table_len(table: &IndexMap<u64, u64>) -> (len: usize)
    ensures
        len == entries(*table).len(),
{
    table.len()
}

/// `IndexMap::is_empty`: whether there is no entry.
#[verifier::external_body]
pub(crate) fn table_is_empty(table: &IndexMap<u64, u64>) -> (empty: bool)
    ensures
        empty == (entries(*table).len() == 0),
{
    table.is_empty()
}

/// `IndexMap::get_index`: the entry at a position, or `None` past the end.
#[verifier::external_body]
pub(crate) fn table_get_index(table: &IndexMap<u64, u64>, index: usize) -> (entry: Option<
    (u64, u64),
>)
    ensures
        entry == (if index < entries(*table).len() {
            Some(entries(*table)[index as int])
        } else {
            None
        }),
{
    table.get_index(index).map(|entry| (*entry.0, *entry.1))
}

/// `IndexMap::get_index_of`: the position of the entry for `key`, of which there is at most one, or
/// `None` where there is none.
#[verifier::external_body]
pub(crate) fn table_get_index_of(table: &IndexMap<u64, u64>, key: u64) -> (index: Option<usize>)
    ensures
        index == (if has_key(entries(*table), key) {
            Some(position(entries(*table), key) as usize)
        } else {
            None
        }),
{
    table.get_index_of(&key)
}

/// `IndexMap::insert`: replaces the service of a key that is there, in its place, and returns the
/// one it had; adds the pair at the end otherwise. The number of entries, as a `usize`, stays one.
/// As with `Vec::push`, running out of memory is left aside.
#[verifier::external_body]
pub(crate) fn table_insert(table: &mut IndexMap<u64, u64>, key: u64, service: u64) -> (before:
    Option<u64>)
    ensures
        entries(*final(table)) == inserted(entries(*old(table)), key, service),
        entries(*final(table)).len() <= usize::MAX,
        before == service_of(entries(*old(table)), key),
{
    table.insert(key, service)
}

/// `IndexMap::remove`: takes out the entry of a key and returns its service; the last entry moves
/// into its place. Leaves a table without that key as it was.
#[verifier::external_body]
pub(crate) fn table_remove(table: &mut IndexMap<u64, u64>, key: u64) -> (before: Option<u64>)
    ensures
        entries(*final(table)) == removed(entries(*old(table)), key),
        before == service_of(entries(*old(table)), key),
{
    table.remove(&key)
}

/// `IndexMap::swap_remove_index`: takes out the entry at a position and returns it; the last entry
/// moves into its place. Does nothing past the end.
#[verifier::external_body]
pub(crate) fn table_swap_remove_index(table: &mut IndexMap<u64, u64>, index: usize) -> (entry:
    Option<(u64, u64)>)
    ensures
        entry == (if index < entries(*old(table)).len() {
            Some(entries(*old(table))[index as int])
        } else {
            None
        }),
        entries(*final(table)) == (if index < entries(*old(table)).len() {
            swap_removed(entries(*old(table)), index as int)
        } else {
            entries(*old(table))
        }),
{
    table.swap_remove_index(index)
}

/// `IndexMap::retain`: keeps, in their order, the entries for which the closure returns true, here
/// those whose key is in `kept`.
#[verifier::external_body]
pub(crate) fn table_retain(table: &mut IndexMap<u64, u64>, kept: &HashSet<u64>)
    ensures
        entries(*final(table)) == entries(*old(table)).filter(
            |entry: (u64, u64)| kept@.contains(entry.0),
        ),
{
    table.retain(|key, _| is_kept(kept, *key))
}

/// Whether `key` is in `kept`.
fn is_kept(kept: &HashSet<u64>, key: u64) -> (found: bool)
    ensures
        found == kept@.contains(key),
{
    broadcast use vstd::std_specs::hash::group_hash_axioms;

    kept.contains(&key)
}

} // verus!
