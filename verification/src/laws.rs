//! Laws of the container, stated over its abstract view — the set of
//! stored keys — and proved once and for all. Together with the
//! operations' contracts (`insert` adds the key to the view, `delete`
//! removes it, `find` answers membership, `isempty` compares the view
//! with the empty set) they pin down how the operations interact. The
//! last law ties the view back to the node structure, through the
//! structural laws stated beside the well-formedness invariant.

use vstd::prelude::*;

use crate::trie::Trie;

verus! {

/// Inserting a key makes it found: after an insert of `k`, `k` is stored.
pub proof fn law_insert_then_find(t: Trie, k: Seq<char>)
    ensures
        t@.insert(k).contains(k),
{
}

/// Distinct keys do not disturb one another, whatever the insertion order
/// and however their prefixes overlap: after inserting both, both are
/// found, and the two orders store the same keys.
pub proof fn law_no_cross_contamination(t: Trie, k1: Seq<char>, k2: Seq<char>)
    requires
        k1 != k2,
    ensures
        t@.insert(k1).insert(k2).contains(k1),
        t@.insert(k1).insert(k2).contains(k2),
        t@.insert(k1).insert(k2) == t@.insert(k2).insert(k1),
{
    assert(t@.insert(k1).insert(k2) =~= t@.insert(k2).insert(k1));
}

/// Inserting a key twice stores the same keys as inserting it once.
pub proof fn law_insert_idempotent(t: Trie, k: Seq<char>)
    ensures
        t@.insert(k).insert(k) == t@.insert(k),
{
    assert(t@.insert(k).insert(k) =~= t@.insert(k));
}

/// A strict prefix of a stored key is not itself found unless it was
/// inserted: inserting only `k2` into an empty trie stores `k2` and not
/// its strict prefix `k1`.
pub proof fn law_prefix_distinction(k1: Seq<char>, k2: Seq<char>)
    requires
        k1.len() < k2.len(),
        k1 == k2.take(k1.len() as int),
    ensures
        Set::<Seq<char>>::empty().insert(k2).contains(k2),
        !Set::<Seq<char>>::empty().insert(k2).contains(k1),
{
    assert(k1 != k2);
}

/// Deleting an inserted key removes it and only it: every other stored
/// key is unaffected.
pub proof fn law_delete_round_trip(t: Trie, k: Seq<char>)
    ensures
        !t@.insert(k).remove(k).contains(k),
        forall|k2: Seq<char>|
            k2 != k ==> t@.insert(k).remove(k).contains(k2) == t@.contains(k2),
{
}

/// A strict prefix of a stored key that is not itself stored reaches an
/// intermediate node that is non-terminal and stores nothing — also right
/// after a delete cleared it.
pub proof fn law_unstored_prefix_node_is_bare(t: Trie, k: Seq<char>, p: Seq<char>)
    requires
        t.wf(),
        t@.contains(k),
        p.len() < k.len(),
        p == k.take(p.len() as int),
        !t@.contains(p),
    ensures
        t.spec_root().node_at(p) is Some,
        !(t.spec_root().node_at(p)->Some_0).spec_terminal(),
        (t.spec_root().node_at(p)->Some_0).spec_value() == Seq::<char>::empty(),
{
    crate::trie::law_stored_key_path_exists(t, k, p.len() as int);
    crate::trie::law_stored_key_is_terminal_node(t, p);
    crate::trie::law_node_values(t, p);
}

/// An insert always leaves the trie nonempty, and it stays nonempty until
/// every stored key is deleted: removing one key leaves it nonempty as
/// long as some other key is stored.
pub proof fn law_nonempty_until_all_deleted(t: Trie, k: Seq<char>, k2: Seq<char>)
    ensures
        t@.insert(k) != Set::<Seq<char>>::empty(),
        t@.contains(k2) && k2 != k ==> t@.remove(k) != Set::<Seq<char>>::empty(),
{
    assert(t@.insert(k).contains(k));
    if t@.contains(k2) && k2 != k {
        assert(t@.remove(k).contains(k2));
    }
}

} // verus!
