use crate::alphabet::{is_key, is_symbol};
use crate::node::{lookup, Node};
use vstd::prelude::*;

verus! {

/// A map from keys over the alphabet to ids, kept as a prefix tree. The root stands for
/// the empty key and is always there; every other node is there for a stored key.
pub struct Trie {
    root: Node,
}

impl View for Trie {
    type V = Map<Seq<char>, i32>;

    open spec fn view(&self) -> Map<Seq<char>, i32> {
        self.contents()
    }
}

/// Whether `path` is the beginning of a key stored in `contents`, or such a key itself.
pub open spec fn leads_to_key(contents: Map<Seq<char>, i32>, path: Seq<char>) -> bool {
    exists|key: Seq<char>| contents.contains_key(key) && #[trigger] path.is_prefix_of(key)
}

impl Trie {
    /// The stored keys with their ids.
    pub closed spec fn contents(&self) -> Map<Seq<char>, i32> {
        self.root@
    }

    /// The tree has one slot per symbol in every node, and below the root no node that
    /// is dead weight.
    pub closed spec fn well_formed(&self) -> bool {
        self.root.well_formed()
    }

    /// Whether the tree holds a node for the prefix `path`.
    pub closed spec fn has_node(&self, path: Seq<char>) -> bool {
        is_key(path) && self.root.has_node(path)
    }
}

impl Trie {
    /// A tree that stores nothing: the bare root.
    pub fn new() -> (trie: Trie)
        ensures
            trie.well_formed(),
            trie@ == Map::<Seq<char>, i32>::empty(),
            forall|path: Seq<char>| trie.has_node(path) <==> path.len() == 0,
    {
        let trie = Trie { root: Node::new() };
        proof {
            assert forall|path: Seq<char>| trie.has_node(path) <==> path.len() == 0 by {
                trie.lemma_empty_is_bare(path);
            }
        }
        trie
    }

    /// Stores `id` under `key`, in place of the id that `key` may have had. The nodes
    /// that the path of `key` lacked are added.
    pub fn insert(&mut self, key: &str, id: i32)
        requires
            old(self).well_formed(),
            is_key(key@),
        ensures
            final(self).well_formed(),
            final(self)@ == old(self)@.insert(key@, id),
            forall|path: Seq<char>|
                final(self).has_node(path) <==> old(self).has_node(path) || path.is_prefix_of(
                    key@,
                ),
    {
        self.root.insert(key, id);
        proof {
            assert forall|path: Seq<char>|
                self.has_node(path) <==> old(self).has_node(path) || path.is_prefix_of(key@) by {
                old(self).lemma_insert_adds_path(*self, key@, id, path);
            }
        }
    }

    /// The id stored under exactly `key`, if there is one.
    pub fn search(&self, key: &str) -> (found: Option<i32>)
        requires
            self.well_formed(),
            is_key(key@),
        ensures
            found == lookup(self@, key@),
    {
        self.root.search(key)
    }

    /// Removes `key` and says whether it was stored. The nodes that were there for
    /// `key` alone are removed with it; nothing changes when `key` was not stored.
    pub fn delete(&mut self, key: &str) -> (removed: bool)
        requires
            old(self).well_formed(),
            is_key(key@),
        ensures
            final(self).well_formed(),
            removed == old(self)@.contains_key(key@),
            final(self)@ == old(self)@.remove(key@),
            forall|path: Seq<char>|
                final(self).has_node(path) <==> path.len() == 0 || leads_to_key(
                    final(self)@,
                    path,
                ),
            !removed ==> final(self)@ == old(self)@,
            !removed ==> forall|path: Seq<char>|
                final(self).has_node(path) == old(self).has_node(path),
    {
        let outcome = self.root.delete(key);
        proof {
            assert forall|path: Seq<char>|
                self.has_node(path) <==> path.len() == 0 || leads_to_key(self@, path) by {
                self.lemma_nodes_are_key_prefixes(path);
            }
            if !outcome.0 {
                assert(old(self)@.remove(key@) =~= old(self)@);
                assert forall|path: Seq<char>| self.has_node(path) == old(self).has_node(path) by {
                    self.lemma_contents_fix_nodes(*old(self), path);
                }
            }
        }
        outcome.0
    }
}

impl Trie {
    /// Every stored key is made of symbols of the alphabet.
    pub proof fn lemma_stored_keys_are_keys(self, key: Seq<char>)
        requires
            self@.contains_key(key),
        ensures
            is_key(key),
    {
        self.root.lemma_stored_keys_are_keys(key);
    }

    /// A tree stores finitely many keys.
    pub proof fn lemma_contents_finite(self)
        requires
            self.well_formed(),
        ensures
            self@.dom().finite(),
    {
        self.root.lemma_contents_finite();
    }

    /// After `key` is inserted with `id`, a search for `key` finds `id`, whatever the
    /// tree held before.
    pub proof fn lemma_insert_then_search(self, key: Seq<char>, id: i32)
        ensures
            lookup(self@.insert(key, id), key) == Some(id),
    {
    }

    /// An insertion changes what is found under no other key, also where one of the two
    /// keys is a prefix of the other.
    pub proof fn lemma_insert_keeps_other_keys(self, key: Seq<char>, id: i32, other: Seq<char>)
        requires
            other != key,
        ensures
            lookup(self@.insert(key, id), other) == lookup(self@, other),
    {
    }

    /// Two different keys may be inserted in either order: the tree stores the same
    /// afterwards.
    pub proof fn lemma_insert_order(
        self,
        key: Seq<char>,
        id: i32,
        other: Seq<char>,
        other_id: i32,
    )
        requires
            other != key,
        ensures
            self@.insert(key, id).insert(other, other_id) == self@.insert(other, other_id).insert(
                key,
                id,
            ),
    {
        assert(self@.insert(key, id).insert(other, other_id) =~= self@.insert(
            other,
            other_id,
        ).insert(key, id));
    }

    /// A second insertion of a key overwrites its id: the tree stores what it would
    /// store had only the second one been made.
    pub proof fn lemma_insert_overwrites(self, key: Seq<char>, first: i32, second: i32)
        ensures
            self@.insert(key, first).insert(key, second) == self@.insert(key, second),
            lookup(self@.insert(key, first).insert(key, second), key) == Some(second),
    {
        assert(self@.insert(key, first).insert(key, second) =~= self@.insert(key, second));
    }

    /// After `key` is deleted, a search for it finds nothing.
    pub proof fn lemma_delete_then_search(self, key: Seq<char>)
        ensures
            lookup(self@.remove(key), key) is None,
    {
    }

    /// A deletion changes what is found under no other key, also where one of the two
    /// keys is a prefix of the other.
    pub proof fn lemma_delete_keeps_other_keys(self, key: Seq<char>, other: Seq<char>)
        requires
            other != key,
        ensures
            lookup(self@.remove(key), other) == lookup(self@, other),
    {
    }

    /// The deletion of a key that is not stored changes nothing, so a deletion made
    /// twice leaves what the first one left.
    pub proof fn lemma_delete_absent_changes_nothing(self, key: Seq<char>)
        ensures
            !self@.contains_key(key) ==> self@.remove(key) == self@,
            self@.remove(key).remove(key) == self@.remove(key),
    {
        if !self@.contains_key(key) {
            assert(self@.remove(key) =~= self@);
        }
        assert(self@.remove(key).remove(key) =~= self@.remove(key));
    }

    /// The nodes of the tree are the root and one node for each non-empty prefix of a
    /// stored key: no branch is missing, and none dangles.
    pub proof fn lemma_nodes_are_key_prefixes(self, path: Seq<char>)
        requires
            self.well_formed(),
        ensures
            self.has_node(path) <==> path.len() == 0 || leads_to_key(self@, path),
    {
        if path.len() == 0 {
            self.root.lemma_empty_path_has_node(path);
        } else if self.has_node(path) {
            let key = self.root.lemma_node_leads_to_key(path);
            assert(self@.contains_key(key) && path.is_prefix_of(key));
        } else if leads_to_key(self@, path) {
            let key = choose|key: Seq<char>|
                self@.contains_key(key) && #[trigger] path.is_prefix_of(key);
            self.root.lemma_stored_keys_are_keys(key);
            self.root.lemma_key_path_has_nodes(key, path);
            assert forall|i: int| 0 <= i < path.len() implies is_symbol(#[trigger] path[i]) by {
                assert(path[i] == key[i]);
            }
        }
    }

    /// Two trees that store the same have the same nodes.
    pub proof fn lemma_contents_fix_nodes(self, other: Trie, path: Seq<char>)
        requires
            self.well_formed(),
            other.well_formed(),
            self@ == other@,
        ensures
            self.has_node(path) == other.has_node(path),
    {
        self.lemma_nodes_are_key_prefixes(path);
        other.lemma_nodes_are_key_prefixes(path);
    }

    /// A tree that stores nothing is the bare root, as a new tree is.
    pub proof fn lemma_empty_is_bare(self, path: Seq<char>)
        requires
            self.well_formed(),
            self@ == Map::<Seq<char>, i32>::empty(),
        ensures
            self.has_node(path) <==> path.len() == 0,
    {
        self.lemma_nodes_are_key_prefixes(path);
    }

    /// An insertion adds the nodes that the path of its key lacks, and no others.
    pub proof fn lemma_insert_adds_path(
        self,
        after: Trie,
        key: Seq<char>,
        id: i32,
        path: Seq<char>,
    )
        requires
            self.well_formed(),
            after.well_formed(),
            after@ == self@.insert(key, id),
        ensures
            after.has_node(path) <==> self.has_node(path) || path.is_prefix_of(key),
    {
        self.lemma_nodes_are_key_prefixes(path);
        after.lemma_nodes_are_key_prefixes(path);
        if path.is_prefix_of(key) {
            assert(after@.contains_key(key));
        }
        if leads_to_key(self@, path) {
            let stored = choose|stored: Seq<char>|
                self@.contains_key(stored) && #[trigger] path.is_prefix_of(stored);
            assert(after@.contains_key(stored));
        }
    }
}

} // verus!
