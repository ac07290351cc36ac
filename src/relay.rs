use vstd::prelude::*;
use crate::trie::{Trie, distinct_keys, extends, listed, prefixes_first};

verus! {

/// How a put found its path.
#[derive(Clone, Copy, Debug, PartialEq, Eq, Structural)]
pub enum PutOutcome {
    /// The path held nothing before.
    Created,
    /// The path held an entry, which the new one replaces for later lookups.
    Replaced,
}

/// Errors surfaced to callers of the store.
#[derive(Clone, Copy, Debug, PartialEq, Eq, Structural)]
pub enum RelayError {
    /// No entry under the path, or no key under the prefix.
    NotFound,
}

/// Publishes `entry` under `path`, before any of its bytes arrive, and says
/// whether it replaced an earlier entry.
pub fn put_entry<V>(store: &mut Trie<V>, path: &[u8], entry: V) -> (r: PutOutcome)
    requires
        old(store).wf(),
        path@.len() > 0,
    ensures
        final(store).wf(),
        final(store)@ == old(store)@.insert(path@, entry),
        (r == PutOutcome::Replaced) == old(store)@.contains_key(path@),
{
    match store.insert(path, entry) {
        Some(_) => PutOutcome::Replaced,
        None => PutOutcome::Created,
    }
}

/// The entry under `path`.
pub fn get_entry<V: Clone>(store: &Trie<V>, path: &[u8]) -> (r: Result<V, RelayError>)
    requires
        store.wf(),
    ensures
        r.is_ok() == store@.contains_key(path@),
        r matches Ok(v) ==> cloned(store@[path@], v),
        r matches Err(e) ==> e == RelayError::NotFound,
{
    match store.get(path) {
        Some(v) => Ok(v),
        None => Err(RelayError::NotFound),
    }
}

/// Removes the entry under `path`; an absent path is no error. Readers that
/// hold the entry keep it.
pub fn delete_entry<V>(store: &mut Trie<V>, path: &[u8])
    requires
        old(store).wf(),
    ensures
        final(store).wf(),
        final(store)@ == old(store)@.remove(path@),
{
    let _ = store.remove(path);
}

/// Every stored path that starts with `prefix`, each once, a path before the
/// paths under it. A non-empty prefix under which nothing is stored gives
/// `NotFound`; the empty prefix is the root and always lists.
pub fn list_entries<V>(store: &Trie<V>, prefix: &[u8]) -> (r: Result<Vec<Vec<u8>>, RelayError>)
    requires
        store.wf(),
    ensures
        r.is_ok() == (prefix@.len() == 0 || exists|k: Seq<u8>|
            store@.contains_key(k) && extends(k, prefix@)),
        r matches Ok(ks) ==> {
            &&& forall|k: Seq<u8>|
                #[trigger] listed(ks@, k) == (store@.contains_key(k) && extends(k, prefix@))
            &&& distinct_keys(ks@)
            &&& prefixes_first(ks@)
        },
        r matches Err(e) ==> e == RelayError::NotFound,
{
    let keys = store.keys_by_prefix(prefix);
    if keys.len() == 0 && prefix.len() > 0 {
        proof {
            assert forall|k: Seq<u8>| !(store@.contains_key(k) && extends(k, prefix@)) by {
                assert(!listed(keys@, k));
            }
        }
        Err(RelayError::NotFound)
    } else {
        proof {
            if keys@.len() > 0 {
                assert(listed(keys@, keys@[0]@));
            }
        }
        Ok(keys)
    }
}

/// Deleting an absent path leaves the store as it was, so deleting it a
/// second time succeeds in the same way.
pub proof fn lemma_delete_absent_idempotent<V>(m: Map<Seq<u8>, V>, p: Seq<u8>)
    requires
        !m.contains_key(p),
    ensures
        m.remove(p) == m,
        m.remove(p).remove(p) == m,
{
    assert(m.remove(p) =~= m);
}

/// After `put(p, a)`, a second `put(p, b)` finds the path taken (so it
/// reports `Replaced`), and every later lookup of `p` sees `b`, never `a`.
pub proof fn lemma_overwrite_isolation<V>(m: Map<Seq<u8>, V>, p: Seq<u8>, a: V, b: V)
    ensures
        m.insert(p, a).contains_key(p),
        m.insert(p, a).insert(p, b)[p] == b,
        m.insert(p, a).insert(p, b) == m.insert(p, b),
{
    assert(m.insert(p, a).insert(p, b) =~= m.insert(p, b));
}

} // verus!
