//! The insertion-ordered pair table (`indexmap::IndexMap`) and its contracts.

use indexmap::IndexMap;
use vstd::prelude::*;

verus! {

/// `indexmap::IndexMap`, opaque to the verifier.
#[verifier::external_type_specification]
#[verifier::external_body]
#[verifier::reject_recursive_types(K)]
#[verifier::reject_recursive_types(V)]
#[verifier::reject_recursive_types(S)]
pub struct ExIndexMap<K, V, S>(IndexMap<K, V, S>);

/// The key-value pairs that a pair table holds, in insertion order.
pub uninterp spec fn table_entries(t: IndexMap<(usize, usize), usize>) -> Seq<((usize, usize), usize)>;

/// Some entry of `s` has key `k`.
pub open spec fn has_key(s: Seq<((usize, usize), usize)>, k: (usize, usize)) -> bool {
    exists|i: int| 0 <= i < s.len() && (#[trigger] s[i]).0 == k
}

/// The position of an entry of `s` with key `k`, where there is one.
pub open spec fn key_index(s: Seq<((usize, usize), usize)>, k: (usize, usize)) -> int {
    choose|i: int| 0 <= i < s.len() && (#[trigger] s[i]).0 == k
}

/// The value stored under `k`, if any.
pub open spec fn value_of(s: Seq<((usize, usize), usize)>, k: (usize, usize)) -> Option<usize> {
    if has_key(s, k) {
        Some(s[key_index(s, k)].1)
    } else {
        None
    }
}

/// No key occurs twice.
pub open spec fn distinct_keys(s: Seq<((usize, usize), usize)>) -> bool {
    forall|i: int, j: int| 0 <= i < j < s.len() ==> (#[trigger] s[i]).0 != (#[trigger] s[j]).0
}

/// `s` after storing `v` under `k`: an existing entry keeps its place, a new
/// one goes last.
pub open spec fn put(s: Seq<((usize, usize), usize)>, k: (usize, usize), v: usize) -> Seq<
    ((usize, usize), usize),
> {
    if has_key(s, k) {
        s.update(key_index(s, k), (k, v))
    } else {
        s.push((k, v))
    }
}

/// Storing a value keeps the keys distinct.
pub proof fn lemma_put_distinct(s: Seq<((usize, usize), usize)>, k: (usize, usize), v: usize)
    requires
        distinct_keys(s),
    ensures
        distinct_keys(put(s, k, v)),
        has_key(put(s, k, v), k),
        forall|q: (usize, usize)| has_key(s, q) ==> has_key(put(s, k, v), q),
        forall|q: (usize, usize)| has_key(put(s, k, v), q) ==> q == k || has_key(s, q),
{
    let t = put(s, k, v);
    if has_key(s, k) {
        let n = key_index(s, k);
        assert(t[n].0 == k);
        assert forall|q: (usize, usize)| has_key(s, q) implies has_key(t, q) by {
            let i = key_index(s, q);
            assert(t[i].0 == q);
        }
        assert forall|q: (usize, usize)| has_key(t, q) implies q == k || has_key(s, q) by {
            let i = key_index(t, q);
            assert(s[i].0 == t[i].0);
        }
        assert forall|i: int, j: int| 0 <= i < j < t.len() implies (#[trigger] t[i]).0 != (
        #[trigger] t[j]).0 by {
            assert(s[i].0 == t[i].0);
            assert(s[j].0 == t[j].0);
        }
    } else {
        assert(t[s.len() as int].0 == k);
        assert forall|q: (usize, usize)| has_key(s, q) implies has_key(t, q) by {
            let i = key_index(s, q);
            assert(t[i].0 == q);
        }
        assert forall|q: (usize, usize)| has_key(t, q) implies q == k || has_key(s, q) by {
            let i = key_index(t, q);
            if i < s.len() {
                assert(s[i].0 == q);
            }
        }
        assert forall|i: int, j: int| 0 <= i < j < t.len() implies (#[trigger] t[i]).0 != (
        #[trigger] t[j]).0 by {
            if j < s.len() {
                assert(s[i].0 == t[i].0);
                assert(s[j].0 == t[j].0);
            } else {
                assert(s[i].0 == t[i].0);
            }
        }
    }
}

/// `IndexMap::new`: a table without entries.
#[verifier::external_body]
pub(crate) fn table_new() -> (t: IndexMap<(usize, usize), usize>)
    ensures
        table_entries(t) == Seq::<((usize, usize), usize)>::empty(),
{
    IndexMap::new()
}

/// `IndexMap::len`: the number of entries.
#[verifier::external_body]
pub(crate) fn table_len(t: &IndexMap<(usize, usize), usize>) -> (n: usize)
    ensures
        n == table_entries(*t).len(),
{
    t.len()
}

/// `IndexMap::get`: the value under `k`, or `None` where no entry has that key.
#[verifier::external_body]
pub(crate) fn table_get(t: &IndexMap<(usize, usize), usize>, k: (usize, usize)) -> (r: Option<
    usize,
>)
    ensures
        r == value_of(table_entries(*t), k),
{
    t.get(&k).copied()
}

/// `IndexMap::get_index`: the entry at position `i` of the insertion order,
/// or `None` where `i` is past the end.
#[verifier::external_body]
pub(crate) fn table_get_index(t: &IndexMap<(usize, usize), usize>, i: usize) -> (r: Option<
    ((usize, usize), usize),
>)
    ensures
        r == if i < table_entries(*t).len() {
            Some(table_entries(*t)[i as int])
        } else {
            None
        },
{
    t.get_index(i).map(|(k, v)| (*k, *v))
}

/// `IndexMap::insert`: the value under an existing key is replaced where it
/// stands, a new key is appended; the value that was there before is returned.
#[verifier::external_body]
pub(crate) fn table_insert(t: &mut IndexMap<(usize, usize), usize>, k: (usize, usize), v: usize) -> (r:
    Option<usize>)
    ensures
        table_entries(*final(t)) == put(table_entries(*old(t)), k, v),
        r == value_of(table_entries(*old(t)), k),
{
    t.insert(k, v)
}

} // verus!
