use crate::key_order::{is_prefix_of, prefixes_of, strictly_ascending};
use crate::text::key_views;
use crate::trie_map::TrieMap;
use vstd::prelude::*;

verus! {

/// A set of strings, kept as a prefix tree.
///
/// Its view is the set of stored keys. Like the map it is built on, it also
/// has `prefixes`, the sequences that resolve from the root; a removed key
/// leaves its path behind.
#[derive(Debug)]
pub struct Trie {
    map: TrieMap<()>,
}

impl View for Trie {
    type V = Set<Seq<char>>;

    closed spec fn view(&self) -> Set<Seq<char>> {
        self.map@.dom()
    }
}

impl Trie {
    /// The sequences that resolve from the root.
    pub closed spec fn prefixes(self) -> Set<Seq<char>> {
        self.map.prefixes()
    }

    /// An empty set: no key is stored and only the empty sequence resolves.
    pub fn new() -> (trie: Self)
        ensures
            trie@ == Set::<Seq<char>>::empty(),
            trie.prefixes() == set![Seq::<char>::empty()],
    {
        let trie = Self { map: TrieMap::new() };
        proof {
            assert(trie@ =~= Set::<Seq<char>>::empty());
        }
        trie
    }

    /// Adds `key` to the set and makes every prefix of `key` resolve.
    pub fn insert(&mut self, key: &str)
        ensures
            final(self)@ == old(self)@.insert(key@),
            final(self).prefixes() == old(self).prefixes().union(prefixes_of(key@)),
    {
        self.map.insert(key, ());
        proof {
            assert(self@ =~= old(self)@.insert(key@));
        }
    }

    /// Takes `key` out of the set, if it is in it. The path that spells
    /// `key` stays in place.
    pub fn remove(&mut self, key: &str)
        ensures
            final(self)@ == old(self)@.remove(key@),
            final(self).prefixes() == old(self).prefixes(),
    {
        self.map.remove(key);
        proof {
            assert(self@ =~= old(self)@.remove(key@));
        }
    }

    /// Whether `key` is in the set.
    pub fn contains(&self, key: &str) -> (found: bool)
        ensures
            found == self@.contains(key@),
    {
        self.map.get(key).is_some()
    }

    /// Whether `prefix` resolves from the root, character by character.
    pub fn contains_prefix(&self, prefix: &str) -> (found: bool)
        ensures
            found == self.prefixes().contains(prefix@),
    {
        self.map.contains_prefix(prefix)
    }

    /// Whether the root has no branch: nothing but the empty sequence resolves.
    /// The empty key, if it is in the set, does not count.
    pub fn is_empty(&self) -> (empty: bool)
        ensures
            empty == (forall|p: Seq<char>| self.prefixes().contains(p) ==> p.len() == 0),
    {
        self.map.is_empty()
    }

    /// Drops every branch below the root: all keys leave the set but the
    /// empty key, which stays if it was in it.
    pub fn clear(&mut self)
        ensures
            final(self)@ == old(self)@.intersect(set![Seq::<char>::empty()]),
            final(self).prefixes() == set![Seq::<char>::empty()],
    {
        self.map.clear_branches();
        proof {
            assert(self@ =~= old(self)@.intersect(set![Seq::<char>::empty()]));
        }
    }

    /// The keys of the set that begin with `prefix`, in ascending
    /// lexicographic order, so that a key comes before each key that extends it.
    pub fn suggest(&self, prefix: &str) -> (suggestions: Vec<String>)
        ensures
            forall|k: Seq<char>|
                #![trigger key_views(suggestions@).contains(k)]
                #![trigger self@.contains(k)]
                key_views(suggestions@).contains(k) <==> self@.contains(k) && is_prefix_of(
                    prefix@,
                    k,
                ),
            strictly_ascending(key_views(suggestions@)),
            key_views(suggestions@).no_duplicates(),
            suggestions@.len() == 0 <==> forall|k: Seq<char>|
                #![trigger self@.contains(k)]
                self@.contains(k) ==> !is_prefix_of(prefix@, k),
            !self.prefixes().contains(prefix@) ==> suggestions@.len() == 0,
    {
        let suggestions = self.map.suggest(prefix);
        proof {
            assert forall|k: Seq<char>|
                key_views(suggestions@).contains(k) <==> self@.contains(k) && is_prefix_of(
                    prefix@,
                    k,
                ) by {
                assert(self@.contains(k) == self.map@.contains_key(k));
            }
            assert forall|k: Seq<char>| self@.contains(k) == self.map@.contains_key(k) by {}
        }
        suggestions
    }

    /// Every prefix of a key of the set resolves: the key itself, the empty
    /// sequence and all between.
    pub proof fn lemma_key_prefixes_resolve(self, p: Seq<char>, k: Seq<char>)
        requires
            self@.contains(k),
            is_prefix_of(p, k),
        ensures
            self.prefixes().contains(p),
    {
        self.map.lemma_key_prefixes_resolve(p, k);
    }
}

} // verus!
