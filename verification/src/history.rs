use crate::node::lookup;
use crate::trie::Trie;
use vstd::prelude::*;

verus! {

/// A change made to a tree: a key is stored with an id, as `Trie::insert` does it, or a
/// key is removed, as `Trie::delete` does it.
pub enum Change {
    Insert { key: Seq<char>, id: i32 },
    Delete { key: Seq<char> },
}

impl Change {
    /// Whether this change stores `key`, under whatever id.
    pub open spec fn inserts(self, key: Seq<char>) -> bool {
        match self {
            Change::Insert { key: k, id: _ } => k == key,
            Change::Delete { key: _ } => false,
        }
    }

    /// Whether this change removes `key`.
    pub open spec fn deletes(self, key: Seq<char>) -> bool {
        match self {
            Change::Insert { key: _, id: _ } => false,
            Change::Delete { key: k } => k == key,
        }
    }

    /// What a tree that stored `contents` stores after this change.
    pub open spec fn apply(self, contents: Map<Seq<char>, i32>) -> Map<Seq<char>, i32> {
        match self {
            Change::Insert { key, id } => contents.insert(key, id),
            Change::Delete { key } => contents.remove(key),
        }
    }
}

/// What a tree that was new stores after `changes`, made one after the other.
pub open spec fn replay(changes: Seq<Change>) -> Map<Seq<char>, i32>
    decreases changes.len(),
{
    if changes.len() == 0 {
        Map::empty()
    } else {
        changes.last().apply(replay(changes.drop_last()))
    }
}

/// One more change acts on what the changes before it have left.
pub proof fn lemma_replay_push(changes: Seq<Change>, change: Change)
    ensures
        replay(changes.push(change)) == change.apply(replay(changes)),
{
    assert(changes.push(change).drop_last() =~= changes);
}

/// A key is stored with the id of the last change that inserted it, and no later change
/// has deleted it.
pub proof fn lemma_stored_by_last_insert(changes: Seq<Change>, key: Seq<char>) -> (at: int)
    requires
        replay(changes).contains_key(key),
    ensures
        0 <= at < changes.len(),
        changes[at] == (Change::Insert { key, id: replay(changes)[key] }),
        forall|later: int|
            at < later < changes.len() ==> !(#[trigger] changes[later]).inserts(key)
                && !changes[later].deletes(key),
    decreases changes.len(),
{
    let last = changes.len() - 1;
    if changes[last].inserts(key) {
        last
    } else {
        let at = lemma_stored_by_last_insert(changes.drop_last(), key);
        assert(changes.drop_last()[at] == changes[at]);
        assert forall|later: int| at < later < changes.len() implies !(#[trigger] changes[later])
            .inserts(key) && !changes[later].deletes(key) by {
            if later < last {
                assert(changes.drop_last()[later] == changes[later]);
            }
        }
        at
    }
}

/// In a tree that went through `changes`, a search for a key that was never inserted
/// finds nothing.
pub proof fn lemma_never_inserted_is_absent(trie: Trie, changes: Seq<Change>, key: Seq<char>)
    requires
        trie@ == replay(changes),
        forall|at: int| 0 <= at < changes.len() ==> !(#[trigger] changes[at]).inserts(key),
    ensures
        lookup(trie@, key) is None,
{
    if replay(changes).contains_key(key) {
        let at = lemma_stored_by_last_insert(changes, key);
        assert(changes[at].inserts(key));
    }
}

/// Once every key that was inserted has been deleted again, nothing is stored.
pub proof fn lemma_all_deleted_is_empty(changes: Seq<Change>)
    requires
        forall|at: int, key: Seq<char>|
            0 <= at < changes.len() && #[trigger] changes[at].inserts(key) ==> exists|later: int|
                at < later < changes.len() && #[trigger] changes[later].deletes(key),
    ensures
        replay(changes) == Map::<Seq<char>, i32>::empty(),
{
    assert forall|key: Seq<char>| !replay(changes).contains_key(key) by {
        if replay(changes).contains_key(key) {
            let at = lemma_stored_by_last_insert(changes, key);
            assert(changes[at].inserts(key));
        }
    }
    assert(replay(changes) =~= Map::<Seq<char>, i32>::empty());
}

/// A tree that went through `changes`, each inserted key deleted again later, is as a
/// new tree is: it stores nothing, and holds no node but the root.
pub proof fn lemma_emptied_tree_is_as_new(trie: Trie, changes: Seq<Change>, path: Seq<char>)
    requires
        trie.well_formed(),
        trie@ == replay(changes),
        forall|at: int, key: Seq<char>|
            0 <= at < changes.len() && #[trigger] changes[at].inserts(key) ==> exists|later: int|
                at < later < changes.len() && #[trigger] changes[later].deletes(key),
    ensures
        trie@ == Map::<Seq<char>, i32>::empty(),
        trie.has_node(path) <==> path.len() == 0,
{
    lemma_all_deleted_is_empty(changes);
    trie.lemma_empty_is_bare(path);
}

} // verus!
