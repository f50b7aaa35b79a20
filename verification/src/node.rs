use crate::alphabet::{
    index_symbol, is_key, is_symbol, lemma_index_symbol_is_symbol, lemma_key_bytes,
    lemma_same_first_and_rest, lemma_symbol_index_in_range, lemma_symbol_index_injective,
    symbol_index, ALPHABET_SIZE,
};
use vstd::prelude::*;
use vstd::set_lib::*;
use vstd::string::*;

verus! {

/// A vertex of the tree. The path that leads to it from the root is the prefix it stands
/// for; `id` is set when that prefix is itself a stored key.
pub struct Node {
    children: Vec<Option<Box<Node>>>,
    id: Option<i32>,
}

/// What a search for `key` answers where `contents` is stored.
pub open spec fn lookup(contents: Map<Seq<char>, i32>, key: Seq<char>) -> Option<i32> {
    if contents.contains_key(key) {
        Some(contents[key])
    } else {
        None
    }
}

impl View for Node {
    type V = Map<Seq<char>, i32>;

    open spec fn view(&self) -> Map<Seq<char>, i32> {
        self.contents()
    }
}

impl Node {
    /// The keys stored at or below this node, each read from this node on, with their ids.
    pub closed spec fn contents(self) -> Map<Seq<char>, i32> {
        Map::new(
            |key: Seq<char>| is_key(key) && self.walk(key) is Some,
            |key: Seq<char>| self.walk(key)->0,
        )
    }

    /// Whether a node stands at the end of `path`, walked from this node on.
    pub closed spec fn has_node(self, path: Seq<char>) -> bool
        decreases path.len(),
    {
        if path.len() == 0 {
            true
        } else {
            match self.children@[symbol_index(path[0])] {
                Some(child) => child.has_node(path.drop_first()),
                None => false,
            }
        }
    }

    /// Dead weight: a node without an id and without children.
    pub closed spec fn is_dead_weight(self) -> bool {
        &&& self.id is None
        &&& forall|i: int| 0 <= i < self.children@.len() ==> (#[trigger] self.children@[i]) is None
    }

    /// One slot per symbol, and no dead weight anywhere below this node.
    pub closed spec fn well_formed(self) -> bool
        decreases self,
    {
        &&& self.children@.len() == ALPHABET_SIZE
        &&& forall|i: int|
            0 <= i < self.children@.len() ==> match #[trigger] self.children@[i] {
                Some(child) => child.well_formed() && !child.is_dead_weight(),
                None => true,
            }
    }
}

impl Node {
    /// A node without an id and without children.
    pub fn new() -> (node: Node)
        ensures
            node.well_formed(),
            node.is_dead_weight(),
            node@ == Map::<Seq<char>, i32>::empty(),
    {
        let mut children: Vec<Option<Box<Node>>> = Vec::new();
        let mut i: usize = 0;
        while i < ALPHABET_SIZE
            invariant
                i <= ALPHABET_SIZE,
                children@.len() == i,
                forall|j: int| 0 <= j < i ==> children@[j] is None,
            decreases ALPHABET_SIZE - i,
        {
            children.push(None);
            i += 1;
        }
        let node = Node { children, id: None };
        proof {
            node.lemma_dead_is_empty();
        }
        node
    }

    /// The slot of the symbol whose code is `c`.
    pub fn char_to_index(c: u8) -> (index: usize)
        requires
            is_symbol(c as char),
        ensures
            index == symbol_index(c as char),
            index < ALPHABET_SIZE,
    {
        if 'a' as u8 <= c && c <= 'z' as u8 {
            (c - 'a' as u8) as usize
        } else {
            (c - 'A' as u8 + 26) as usize
        }
    }

    /// The id stored under `key`, read from this node on, if there is one.
    pub fn search(&self, key: &str) -> (found: Option<i32>)
        requires
            self.well_formed(),
            is_key(key@),
        ensures
            found == lookup(self@, key@),
        decreases key@.len(),
    {
        if key.is_empty() {
            return self.id;
        }
        proof {
            lemma_key_bytes(key);
        }
        let index = Node::char_to_index(key.get_ascii(0));
        let rest = key.substring_ascii(1, key.as_bytes().len());
        match &self.children[index] {
            None => None,
            Some(child) => child.search(rest),
        }
    }

    /// Stores `id` under `key`, read from this node on, and makes the nodes that the
    /// path of `key` lacks.
    pub fn insert(&mut self, key: &str, id: i32)
        requires
            old(self).well_formed(),
            is_key(key@),
        ensures
            final(self).well_formed(),
            final(self)@ == old(self)@.insert(key@, id),
        decreases key@.len(),
    {
        if key.is_empty() {
            self.id = Some(id);
            proof {
                Node::lemma_id_changed(*old(self), *self, key@);
            }
            return;
        }
        proof {
            lemma_key_bytes(key);
        }
        let index = Node::char_to_index(key.get_ascii(0));
        let rest = key.substring_ascii(1, key.as_bytes().len());
        if self.children[index].is_none() {
            self.children[index] = Some(Box::new(Node::new()));
        }
        self.children[index].as_mut().unwrap().insert(rest, id);
        proof {
            let child = *self.children@[index as int]->0;
            assert(child@.contains_key(rest@));
            if child.is_dead_weight() {
                child.lemma_dead_is_empty();
            }
            Node::lemma_insert_below(*old(self), *self, key@, id);
        }
    }

    /// Removes `key`, read from this node on, and unlinks every node below this one that
    /// has become dead weight. The answer says first whether `key` was stored, then
    /// whether this node is dead weight now.
    pub fn delete(&mut self, key: &str) -> (outcome: (bool, bool))
        requires
            old(self).well_formed(),
            is_key(key@),
        ensures
            final(self).well_formed(),
            final(self)@ == old(self)@.remove(key@),
            outcome.0 == old(self)@.contains_key(key@),
            outcome.1 == final(self).is_dead_weight(),
        decreases key@.len(),
    {
        let delete_success = if key.is_empty() {
            proof {
                old(self).lemma_unfold(key@);
            }
            if self.id.is_none() {
                assert(self@ =~= old(self)@.remove(key@));
                false
            } else {
                self.id = None;
                proof {
                    Node::lemma_id_changed(*old(self), *self, key@);
                }
                true
            }
        } else {
            proof {
                lemma_key_bytes(key);
                old(self).lemma_unfold(key@);
            }
            let index = Node::char_to_index(key.get_ascii(0));
            let rest = key.substring_ascii(1, key.as_bytes().len());
            match self.children[index].as_mut() {
                None => {
                    assert(self@ =~= old(self)@.remove(key@));
                    false
                },
                Some(child) => {
                    let res = child.delete(rest);
                    if res.1 {
                        proof {
                            child.lemma_dead_is_empty();
                        }
                        self.children[index] = None;
                    }
                    proof {
                        Node::lemma_remove_below(*old(self), *self, key@);
                    }
                    res.0
                },
            }
        };
        let node_useless = self.is_useless();
        (delete_success, node_useless)
    }

    /// Whether this node is dead weight: it has no id and no child.
    pub fn is_useless(&self) -> (useless: bool)
        ensures
            useless == self.is_dead_weight(),
    {
        if self.id.is_some() {
            return false;
        }
        let mut i: usize = 0;
        while i < self.children.len()
            invariant
                i <= self.children@.len(),
                forall|j: int| 0 <= j < i ==> self.children@[j] is None,
            decreases self.children@.len() - i,
        {
            if self.children[i].is_some() {
                return false;
            }
            i += 1;
        }
        true
    }
}

impl Node {
    /// Every stored key is made of symbols of the alphabet.
    pub proof fn lemma_stored_keys_are_keys(self, key: Seq<char>)
        requires
            self@.contains_key(key),
        ensures
            is_key(key),
    {
    }

    /// A node stores finitely many keys.
    pub proof fn lemma_contents_finite(self)
        requires
            self.well_formed(),
        ensures
            self@.dom().finite(),
        decreases self, ALPHABET_SIZE + 1,
    {
        self.lemma_keys_before_finite(ALPHABET_SIZE as int);
        assert forall|key: Seq<char>| self@.contains_key(key) implies self.keys_before(
            ALPHABET_SIZE as int,
        ).contains(key) by {
            if key.len() > 0 {
                lemma_symbol_index_in_range(key[0]);
            }
        }
        assert(self@.dom() =~= self.keys_before(ALPHABET_SIZE as int));
    }

    /// A node that is dead weight stores no key.
    pub proof fn lemma_dead_is_empty(self)
        requires
            self.well_formed(),
            self.is_dead_weight(),
        ensures
            self@ == Map::<Seq<char>, i32>::empty(),
    {
        assert forall|key: Seq<char>| is_key(key) implies self.walk(key) is None by {
            if key.len() > 0 {
                lemma_symbol_index_in_range(key[0]);
            }
        }
        assert(self@ =~= Map::<Seq<char>, i32>::empty());
    }

    /// A node that is no dead weight stores a key.
    pub proof fn lemma_live_has_key(self) -> (key: Seq<char>)
        requires
            self.well_formed(),
            !self.is_dead_weight(),
        ensures
            self@.contains_key(key),
        decreases self,
    {
        if self.id is Some {
            let key = Seq::<char>::empty();
            assert(self.walk(key) is Some);
            key
        } else {
            let i = choose|i: int| 0 <= i < self.children@.len() && self.children@[i] is Some;
            let child = self.children@[i]->0;
            let tail = child.lemma_live_has_key();
            let key = seq![index_symbol(i)] + tail;
            lemma_index_symbol_is_symbol(i);
            assert(key.drop_first() =~= tail);
            assert(self.walk(key) == child.walk(tail));
            key
        }
    }

    /// The empty path ends at this node itself.
    pub proof fn lemma_empty_path_has_node(self, path: Seq<char>)
        requires
            path.len() == 0,
        ensures
            self.has_node(path),
    {
    }

    /// Along the path of a stored key a node stands at every step.
    pub proof fn lemma_key_path_has_nodes(self, key: Seq<char>, path: Seq<char>)
        requires
            self@.contains_key(key),
            path.is_prefix_of(key),
        ensures
            self.has_node(path),
        decreases path.len(),
    {
        if path.len() > 0 {
            let child = *self.children@[symbol_index(key[0])]->0;
            assert(child.walk(key.drop_first()) == self.walk(key));
            assert(path.drop_first().is_prefix_of(key.drop_first()));
            child.lemma_key_path_has_nodes(key.drop_first(), path.drop_first());
        }
    }

    /// Every node below this one lies on the path of a stored key: no branch dangles.
    pub proof fn lemma_node_leads_to_key(self, path: Seq<char>) -> (key: Seq<char>)
        requires
            self.well_formed(),
            is_key(path),
            path.len() > 0,
            self.has_node(path),
        ensures
            self@.contains_key(key),
            path.is_prefix_of(key),
        decreases path.len(),
    {
        lemma_symbol_index_in_range(path[0]);
        let child = *self.children@[symbol_index(path[0])]->0;
        let rest = path.drop_first();
        let tail = if rest.len() == 0 {
            child.lemma_live_has_key()
        } else {
            child.lemma_node_leads_to_key(rest)
        };
        let key = seq![path[0]] + tail;
        assert(key.drop_first() =~= tail);
        assert(self.walk(key) == child.walk(tail));
        assert(path =~= seq![path[0]] + rest);
        key
    }
}

impl Node {
    /// The id at the end of the path `key`, if the path exists and a key ends there.
    spec fn walk(self, key: Seq<char>) -> Option<i32>
        decreases key.len(),
    {
        if key.len() == 0 {
            self.id
        } else {
            match self.children@[symbol_index(key[0])] {
                Some(child) => child.walk(key.drop_first()),
                None => None,
            }
        }
    }

    /// The keys stored below slot `index`, each read from the child on.
    spec fn below(self, index: int) -> Map<Seq<char>, i32> {
        match self.children@[index] {
            Some(child) => child@,
            None => Map::empty(),
        }
    }

    /// What a node stores, by its own id and by what its children store.
    proof fn lemma_unfold(self, key: Seq<char>)
        requires
            is_key(key),
        ensures
            key.len() == 0 ==> (self@.contains_key(key) <==> self.id is Some),
            key.len() == 0 && self.id is Some ==> self@[key] == self.id->0,
            key.len() > 0 ==> (self@.contains_key(key) <==> self.below(
                symbol_index(key[0]),
            ).contains_key(key.drop_first())),
            key.len() > 0 && self@.contains_key(key) ==> self@[key] == self.below(
                symbol_index(key[0]),
            )[key.drop_first()],
    {
    }

    /// Setting or clearing the id of a node sets or clears the entry of the empty key,
    /// and no other.
    proof fn lemma_id_changed(before: Node, after: Node, key: Seq<char>)
        requires
            key.len() == 0,
            after.children == before.children,
        ensures
            after.id is Some ==> after@ == before@.insert(key, after.id->0),
            after.id is None ==> after@ == before@.remove(key),
    {
        assert forall|k: Seq<char>| is_key(k) && k != key implies after.walk(k) == before.walk(
            k,
        ) by {
            if k.len() == 0 {
                assert(k =~= key);
            }
        }
        assert(is_key(key));
        if after.id is Some {
            assert(after@ =~= before@.insert(key, after.id->0));
        } else {
            assert(after@ =~= before@.remove(key));
        }
    }

    /// What is common to a node before and after a change below the slot of `symbol`.
    spec fn same_but_below(before: Node, after: Node, symbol: char) -> bool {
        &&& is_symbol(symbol)
        &&& after.id == before.id
        &&& after.children@.len() == before.children@.len()
        &&& forall|i: int|
            0 <= i < before.children@.len() && i != symbol_index(symbol)
                ==> #[trigger] after.children@[i] == before.children@[i]
    }

    /// A change below one slot leaves the keys that start with another symbol as they were.
    proof fn lemma_other_keys_kept(before: Node, after: Node, symbol: char, key: Seq<char>)
        requires
            before.children@.len() == ALPHABET_SIZE,
            Node::same_but_below(before, after, symbol),
            is_key(key),
            key.len() == 0 || key[0] != symbol,
        ensures
            after.walk(key) == before.walk(key),
    {
        if key.len() > 0 {
            lemma_symbol_index_in_range(key[0]);
            if symbol_index(key[0]) == symbol_index(symbol) {
                lemma_symbol_index_injective(key[0], symbol);
            }
        }
    }

    /// An insertion below a slot is an insertion of the key with the slot's symbol in front.
    proof fn lemma_insert_below(before: Node, after: Node, key: Seq<char>, id: i32)
        requires
            before.children@.len() == ALPHABET_SIZE,
            is_key(key),
            key.len() > 0,
            Node::same_but_below(before, after, key[0]),
            after.below(symbol_index(key[0])) == before.below(symbol_index(key[0])).insert(
                key.drop_first(),
                id,
            ),
        ensures
            after@ == before@.insert(key, id),
    {
        assert forall|k: Seq<char>| is_key(k) implies (after@.contains_key(k) <==> k == key
            || before@.contains_key(k)) && (after@.contains_key(k) ==> after@[k] == if k == key {
            id
        } else {
            before@[k]
        }) by {
            before.lemma_unfold(k);
            after.lemma_unfold(k);
            if k.len() > 0 && k[0] == key[0] {
                if k.drop_first() == key.drop_first() {
                    lemma_same_first_and_rest(k, key);
                }
            } else {
                Node::lemma_other_keys_kept(before, after, key[0], k);
            }
        }
        assert(after@ =~= before@.insert(key, id));
    }

    /// A removal below a slot is a removal of the key with the slot's symbol in front.
    proof fn lemma_remove_below(before: Node, after: Node, key: Seq<char>)
        requires
            before.children@.len() == ALPHABET_SIZE,
            is_key(key),
            key.len() > 0,
            Node::same_but_below(before, after, key[0]),
            after.below(symbol_index(key[0])) == before.below(symbol_index(key[0])).remove(
                key.drop_first(),
            ),
        ensures
            after@ == before@.remove(key),
    {
        assert forall|k: Seq<char>| is_key(k) implies (after@.contains_key(k) <==> k != key
            && before@.contains_key(k)) && (after@.contains_key(k) ==> after@[k] == before@[k]) by {
            before.lemma_unfold(k);
            after.lemma_unfold(k);
            if k.len() > 0 && k[0] == key[0] {
                if k.drop_first() == key.drop_first() {
                    lemma_same_first_and_rest(k, key);
                }
            } else {
                Node::lemma_other_keys_kept(before, after, key[0], k);
            }
        }
        assert(after@ =~= before@.remove(key));
    }

    /// The stored keys that are empty or start with a symbol whose slot is below `bound`.
    spec fn keys_before(self, bound: int) -> Set<Seq<char>> {
        Set::new(
            |key: Seq<char>|
                self@.contains_key(key) && (key.len() == 0 || symbol_index(key[0]) < bound),
        )
    }

    proof fn lemma_keys_before_finite(self, bound: int)
        requires
            self.well_formed(),
            0 <= bound <= ALPHABET_SIZE,
        ensures
            self.keys_before(bound).finite(),
        decreases self, bound,
    {
        if bound == 0 {
            let only = Set::<Seq<char>>::empty().insert(Seq::empty());
            assert forall|key: Seq<char>| self.keys_before(0).contains(key) implies only.contains(
                key,
            ) by {
                if key.len() > 0 {
                    lemma_symbol_index_in_range(key[0]);
                }
                assert(key =~= Seq::empty());
            }
            lemma_set_subset_finite(only, self.keys_before(0));
        } else {
            let slot = bound - 1;
            let symbol = index_symbol(slot);
            lemma_index_symbol_is_symbol(slot);
            self.lemma_keys_before_finite(slot);
            let tails = self.below(slot).dom();
            if self.children@[slot] is Some {
                self.children@[slot]->0.lemma_contents_finite();
            }
            let in_front = |tail: Seq<char>| seq![symbol] + tail;
            tails.lemma_map_finite(in_front);
            let so_far = self.keys_before(slot).union(tails.map(in_front));
            assert forall|key: Seq<char>| self.keys_before(bound).contains(key) implies so_far.contains(
                key,
            ) by {
                if key.len() > 0 && symbol_index(key[0]) == slot {
                    self.lemma_unfold(key);
                    lemma_symbol_index_injective(key[0], symbol);
                    assert(key =~= in_front(key.drop_first()));
                    assert(tails.contains(key.drop_first()));
                }
            }
            lemma_set_subset_finite(so_far, self.keys_before(bound));
        }
    }
}

} // verus!
