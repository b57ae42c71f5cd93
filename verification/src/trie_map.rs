use crate::key_order::{
    is_prefix_of, lemma_ascending_distinct, lemma_ascending_unique, lemma_prefix_split,
    prefixes_of, strictly_ascending,
};
use crate::text::key_views;
use vstd::prelude::*;
use vstd::std_specs::iter::IteratorSpec;

verus! {

/// One position in the tree: the prefix spelled by the path from the root.
///
/// `labels` and `children` run in parallel: `children[i]` is reached by the
/// character `labels[i]`. Labels are kept in strictly ascending order, so a
/// character leads to at most one child and children are met in order.
#[derive(Debug)]
pub struct TrieMapNode<T> {
    pub value: Option<T>,
    pub labels: Vec<char>,
    pub children: Vec<TrieMapNode<T>>,
}

impl<T> TrieMapNode<T> {
    /// The labels are strictly ascending and there is one child per label.
    pub open spec fn ordered(self) -> bool {
        &&& self.labels@.len() == self.children@.len()
        &&& forall|i: int, j: int|
            0 <= i < j < self.labels@.len() ==> self.labels@[i] < self.labels@[j]
    }

    /// Every node of the subtree is `ordered`.
    pub open spec fn wf(self) -> bool
        decreases self,
    {
        &&& self.ordered()
        &&& forall|i: int| 0 <= i < self.children@.len() ==> (#[trigger] self.children@[i]).wf()
    }

    /// The index of the child reached by `c`, if there is one.
    pub open spec fn child_index(self, c: char) -> Option<int> {
        if exists|i: int| 0 <= i < self.labels@.len() && self.labels@[i] == c {
            Some(choose|i: int| 0 <= i < self.labels@.len() && self.labels@[i] == c)
        } else {
            None
        }
    }

    /// The node reached from here by following `key`, if every character resolves.
    pub open spec fn descend(self, key: Seq<char>) -> Option<Self>
        decreases key.len(),
    {
        if key.len() == 0 {
            Some(self)
        } else {
            match self.child_index(key[0]) {
                Some(i) => self.children@[i].descend(key.drop_first()),
                None => None,
            }
        }
    }

    /// Whether following `key` from here resolves at every character.
    pub open spec fn has_path(self, key: Seq<char>) -> bool {
        self.descend(key) is Some
    }

    /// The value stored under `key` below this node.
    pub open spec fn lookup(self, key: Seq<char>) -> Option<T> {
        match self.descend(key) {
            Some(node) => node.value,
            None => None,
        }
    }

    /// The stored keys with their values, each key spelled from this node.
    pub open spec fn entries(self) -> Map<Seq<char>, T> {
        Map::new(|k: Seq<char>| self.lookup(k) is Some, |k: Seq<char>| self.lookup(k)->0)
    }

    /// The sequences that resolve from this node, whether or not they are stored keys.
    pub open spec fn paths(self) -> Set<Seq<char>> {
        Set::new(|k: Seq<char>| self.has_path(k))
    }

    /// A node with no value and no children.
    pub fn new() -> (node: Self)
        ensures
            node.value is None,
            node.labels@.len() == 0,
            node.children@.len() == 0,
            node.wf(),
            node.entries() == Map::<Seq<char>, T>::empty(),
            node.paths() == set![Seq::<char>::empty()],
    {
        let node = Self { value: None, labels: Vec::new(), children: Vec::new() };
        proof {
            node.lemma_paths_of_leaf();
            assert(node.lookup(Seq::<char>::empty()) is None);
            assert(node.entries() =~= Map::<Seq<char>, T>::empty());
        }
        node
    }

    /// Binary search among the labels: the first position whose label is not
    /// below `c`, and whether that position holds `c` itself.
    fn locate(&self, c: char) -> (r: (usize, bool))
        requires
            self.ordered(),
        ensures
            r.0 <= self.labels@.len(),
            forall|i: int| 0 <= i < r.0 ==> self.labels@[i] < c,
            forall|i: int| r.0 < i < self.labels@.len() ==> c < self.labels@[i],
            r.1 ==> r.0 < self.labels@.len() && self.labels@[r.0 as int] == c,
            !r.1 ==> (r.0 < self.labels@.len() ==> c < self.labels@[r.0 as int]),
            r.1 <==> self.child_index(c) is Some,
            r.1 ==> self.child_index(c) == Some(r.0 as int),
    {
        let mut lo: usize = 0;
        let mut hi: usize = self.labels.len();
        while lo < hi
            invariant
                self.ordered(),
                0 <= lo <= hi <= self.labels@.len(),
                forall|i: int| 0 <= i < lo ==> self.labels@[i] < c,
                forall|i: int| hi <= i < self.labels@.len() ==> c < self.labels@[i],
            decreases hi - lo,
        {
            let mid: usize = lo + (hi - lo) / 2;
            let m: char = self.labels[mid];
            if m == c {
                proof {
                    self.lemma_child_index(c, mid as int);
                }
                return (mid, true);
            } else if m < c {
                lo = mid + 1;
            } else {
                hi = mid;
            }
        }
        (lo, false)
    }

    /// Follows `key` from this node, one child per character.
    pub(crate) fn walk<'a>(&'a self, key: &str) -> (r: Option<&'a Self>)
        requires
            self.wf(),
        ensures
            match r {
                Some(node) => self.descend(key@) == Some(*node) && node.wf(),
                None => self.descend(key@) is None,
            },
    {
        broadcast use vstd::string::group_string_axioms;

        let mut cur: &Self = self;
        let mut rest = key.chars();
        loop
            invariant
                cur.wf(),
                self.descend(key@) == cur.descend(rest.remaining()),
                rest.decrease() is Some,
            decreases rest.decrease()->0,
        {
            match rest.next() {
                Some(c) => {
                    let (pos, found) = cur.locate(c);
                    if !found {
                        return None;
                    }
                    cur = &cur.children[pos];
                },
                None => {
                    return Some(cur);
                },
            }
        }
    }

    /// Stores `value` under `key`, spelled from this node, creating the nodes
    /// that the path of `key` lacks.
    #[verifier::loop_isolation(false)]
    pub(crate) fn insert(&mut self, key: &str, value: T)
        requires
            old(self).wf(),
        ensures
            final(self).wf(),
            Self::inserted(*old(self), *final(self), key@, value),
    {
        broadcast use vstd::string::group_string_axioms;

        let ghost pre = *self;
        let ghost fin = *final(self);
        let mut cur: &mut Self = self;
        let mut rest = key.chars();
        let ghost mut done: Seq<char> = Seq::empty();
        proof {
            assert(done + rest.remaining() =~= key@);
        }
        loop
            invariant
                cur.wf(),
                rest.decrease() is Some,
                key@ == done + rest.remaining(),
                // Whatever the node under the cursor becomes: if that is an
                // insert of `t` below it, the tree as a whole has `done + t` inserted.
                forall|t: Seq<char>|
                    #![trigger Self::inserted(*cur, *final(cur), t, value)]
                    Self::inserted(*cur, *final(cur), t, value) && final(cur).wf()
                        ==> Self::inserted(pre, fin, done + t, value) && fin.wf(),
            decreases rest.decrease()->0,
        {
            let ghost here = *cur;
            let ghost here_fin = *final(cur);
            match rest.next() {
                None => {
                    break ;
                },
                Some(c) => {
                    let (pos, found) = cur.locate(c);
                    if !found {
                        cur.labels.insert(pos, c);
                        cur.children.insert(pos, TrieMapNode::new());
                    }
                    let ghost grown = *cur;
                    proof {
                        if !found {
                            Self::lemma_grown(here, grown, pos as int, c);
                        }
                    }
                    cur = &mut cur.children[pos];
                    proof {
                        let tail = rest.remaining();
                        assert forall|t: Seq<char>|
                            #![trigger Self::inserted(*cur, *final(cur), t, value)]
                            Self::inserted(*cur, *final(cur), t, value)
                                && final(cur).wf() implies Self::inserted(
                                pre,
                                fin,
                                done.push(c) + t,
                                value,
                            ) && fin.wf() by {
                            let whole = seq![c] + t;
                            assert(whole.drop_first() =~= t);
                            assert(here_fin.children@ =~= grown.children@.update(
                                pos as int,
                                here_fin.children@[pos as int],
                            ));
                            Self::lemma_inserted_child(grown, here_fin, pos as int, whole, value);
                            if !found {
                                Self::lemma_inserted_into_grown(
                                    here,
                                    grown,
                                    here_fin,
                                    c,
                                    whole,
                                    value,
                                );
                            }
                            assert(done + whole =~= done.push(c) + t);
                        }
                        assert(done.push(c) + tail =~= key@);
                        done = done.push(c);
                    }
                },
            }
        }
        let ghost here = *cur;
        cur.value = Some(value);
        proof {
            Self::lemma_value_stored(here, *cur, value);
            assert(done + Seq::<char>::empty() =~= key@);
        }
    }

    /// Clears the value under `key`, spelled from this node, if the path of
    /// `key` resolves; no node is taken away.
    #[verifier::loop_isolation(false)]
    pub(crate) fn remove(&mut self, key: &str)
        requires
            old(self).wf(),
        ensures
            final(self).wf(),
            Self::removed(*old(self), *final(self), key@),
    {
        broadcast use vstd::string::group_string_axioms;

        let ghost pre = *self;
        let ghost fin = *final(self);
        let mut cur: &mut Self = self;
        let mut rest = key.chars();
        let ghost mut done: Seq<char> = Seq::empty();
        proof {
            assert(done + rest.remaining() =~= key@);
        }
        loop
            invariant
                cur.wf(),
                rest.decrease() is Some,
                key@ == done + rest.remaining(),
                // Whatever the node under the cursor becomes: if that is a
                // removal of `t` below it, the tree as a whole has `done + t` removed.
                forall|t: Seq<char>|
                    #![trigger Self::removed(*cur, *final(cur), t)]
                    Self::removed(*cur, *final(cur), t) && final(cur).wf() ==> Self::removed(
                        pre,
                        fin,
                        done + t,
                    ) && fin.wf(),
            decreases rest.decrease()->0,
        {
            let ghost here = *cur;
            let ghost here_fin = *final(cur);
            let ghost pending = rest.remaining();
            match rest.next() {
                None => {
                    cur.value = None;
                    proof {
                        Self::lemma_value_cleared(here, *cur);
                        assert(done + Seq::<char>::empty() =~= key@);
                    }
                    return ;
                },
                Some(c) => {
                    let (pos, found) = cur.locate(c);
                    if !found {
                        proof {
                            assert(here.descend(pending) is None);
                            assert(Self::removed(here, here, pending));
                        }
                        return ;
                    }
                    cur = &mut cur.children[pos];
                    proof {
                        let tail = rest.remaining();
                        assert forall|t: Seq<char>|
                            #![trigger Self::removed(*cur, *final(cur), t)]
                            Self::removed(*cur, *final(cur), t) && final(cur).wf() implies Self::removed(
                                pre,
                                fin,
                                done.push(c) + t,
                            ) && fin.wf() by {
                            let whole = seq![c] + t;
                            assert(whole.drop_first() =~= t);
                            assert(here_fin.children@ =~= here.children@.update(
                                pos as int,
                                here_fin.children@[pos as int],
                            ));
                            Self::lemma_removed_child(here, here_fin, pos as int, whole);
                            assert(done + whole =~= done.push(c) + t);
                        }
                        assert(done.push(c) + tail =~= key@);
                        done = done.push(c);
                    }
                },
            }
        }
    }

    /// Appends to `suggestions` every key stored at or below this node, each
    /// with `prefix` before it: a node's own key first, then the keys below
    /// each of its children, the children taken in ascending order of their
    /// characters. The walk keeps the nodes it has yet to visit on a stack of
    /// its own, so a long key costs memory and no call depth.
    #[verifier::loop_isolation(false)]
    pub(crate) fn suggest_helper(&self, prefix: &str, suggestions: &mut Vec<String>)
        requires
            self.wf(),
        ensures
            old(suggestions)@.len() <= final(suggestions)@.len(),
            final(suggestions)@.subrange(0, old(suggestions)@.len() as int) == old(suggestions)@,
            Self::lists_keys(
                *self,
                prefix@,
                key_views(final(suggestions)@.skip(old(suggestions)@.len() as int)),
            ),
    {
        let ghost start = suggestions@.len() as int;
        let mut stack: Vec<(&Self, String)> = Vec::new();
        stack.push((self, prefix.to_owned()));
        proof {
            Self::lemma_walk_start(*self, prefix@);
            assert(Self::frames_of(stack@) =~= seq![(*self, prefix@)]);
            assert(key_views(suggestions@.skip(start)) =~= Seq::<Seq<char>>::empty());
            assert(suggestions@.subrange(0, start) =~= old(suggestions)@);
        }
        loop
            invariant
                start <= suggestions@.len(),
                suggestions@.subrange(0, start) == old(suggestions)@,
                Self::walk_inv(
                    *self,
                    prefix@,
                    key_views(suggestions@.skip(start)),
                    Self::frames_of(stack@),
                ),
            decreases Self::weight(Self::frames_of(stack@)),
        {
            let ghost frames = Self::frames_of(stack@);
            let ghost out = key_views(suggestions@.skip(start));
            let ghost before = suggestions@;
            match stack.pop() {
                None => {
                    proof {
                        assert(frames =~= Seq::empty());
                        Self::lemma_walk_done(*self, prefix@, out);
                    }
                    return ;
                },
                Some((node, key)) => {
                    let ghost top = frames.last();
                    let ghost base = Self::frames_of(stack@);
                    proof {
                        assert(base =~= frames.drop_last());
                        assert(top == (*node, key@));
                        assert(Self::frame_ok(*self, prefix@, frames[frames.len() - 1]));
                    }
                    let n = node.children.len();
                    let mut i: usize = n;
                    while i > 0
                        invariant
                            0 <= i <= n,
                            Self::expanded(frames, Self::frames_of(stack@), i as int),
                            Self::weight(Self::frames_of(stack@)) == Self::weight(base)
                                + node.size_from(i as int),
                        decreases i,
                    {
                        let ghost lower = Self::frames_of(stack@);
                        i -= 1;
                        let mut deeper = key.clone();
                        deeper.push(node.labels[i]);
                        stack.push((&node.children[i], deeper));
                        proof {
                            let frame = Self::child_frame(top, i as int);
                            assert(Self::frames_of(stack@) =~= lower.push(frame));
                            Self::lemma_weight_push(lower, frame);
                        }
                    }
                    if node.value.is_some() {
                        suggestions.push(key);
                    }
                    proof {
                        let out2 = key_views(suggestions@.skip(start));
                        assert(out2 =~= if node.value is Some {
                            out.push(key@)
                        } else {
                            out
                        });
                        assert(suggestions@.subrange(0, start) =~= before.subrange(0, start));
                        Self::lemma_walk_step(
                            *self,
                            prefix@,
                            out,
                            frames,
                            out2,
                            Self::frames_of(stack@),
                        );
                    }
                },
            }
        }
    }
}

/// A map from strings to values, kept as a prefix tree: keys that begin alike
/// share the path that spells their common beginning.
///
/// Its view is the map from stored keys to their values. Besides that it has
/// `prefixes`, the set of sequences that resolve from the root. Removing a key
/// clears its value and leaves its path in place, so a prefix can outlive
/// every key that began with it.
#[derive(Debug)]
pub struct TrieMap<T> {
    root: TrieMapNode<T>,
}

impl<T> View for TrieMap<T> {
    type V = Map<Seq<char>, T>;

    closed spec fn view(&self) -> Map<Seq<char>, T> {
        self.root.entries()
    }
}

impl<T> TrieMap<T> {
    #[verifier::type_invariant]
    spec fn well_formed(self) -> bool {
        self.root.wf()
    }

    /// The sequences that resolve from the root: every prefix of every key
    /// that was ever inserted and whose branch was not cleared since.
    pub closed spec fn prefixes(self) -> Set<Seq<char>> {
        self.root.paths()
    }

    /// An empty map: no key is stored and only the empty sequence resolves.
    pub fn new() -> (map: Self)
        ensures
            map@ == Map::<Seq<char>, T>::empty(),
            map.prefixes() == set![Seq::<char>::empty()],
    {
        Self { root: TrieMapNode::new() }
    }

    /// The root node, which stands for the empty prefix.
    pub fn root(&self) -> (node: &TrieMapNode<T>)
        ensures
            node.wf(),
            node.entries() == self@,
            node.paths() == self.prefixes(),
    {
        proof {
            use_type_invariant(self);
        }
        &self.root
    }

    /// Stores `value` under `key`, in place of any value that `key` had, and
    /// makes every prefix of `key` resolve.
    pub fn insert(&mut self, key: &str, value: T)
        ensures
            final(self)@ == old(self)@.insert(key@, value),
            final(self).prefixes() == old(self).prefixes().union(prefixes_of(key@)),
    {
        proof {
            use_type_invariant(&*self);
        }
        // The root is taken out while it changes: the map holds a well-formed
        // root at every moment.
        let mut root = TrieMapNode::new();
        std::mem::swap(&mut root, &mut self.root);
        let ghost pre = root;
        root.insert(key, value);
        self.root = root;
        proof {
            assert(TrieMapNode::inserted(pre, self.root, key@, value));
            assert(self.root.entries() =~= pre.entries().insert(key@, value));
            assert(self.root.paths() =~= pre.paths().union(prefixes_of(key@)));
        }
    }

    /// Clears the value stored under `key`, if there is one. The path that
    /// spells `key` stays in place.
    pub fn remove(&mut self, key: &str)
        ensures
            final(self)@ == old(self)@.remove(key@),
            final(self).prefixes() == old(self).prefixes(),
    {
        proof {
            use_type_invariant(&*self);
        }
        let mut root = TrieMapNode::new();
        std::mem::swap(&mut root, &mut self.root);
        let ghost pre = root;
        root.remove(key);
        self.root = root;
        proof {
            assert(TrieMapNode::removed(pre, self.root, key@));
            assert(self.root.entries() =~= pre.entries().remove(key@));
            assert(self.root.paths() =~= pre.paths());
        }
    }

    /// The value stored under `key`, if `key` is a stored key.
    pub fn get(&self, key: &str) -> (found: Option<&T>)
        ensures
            found == if self@.contains_key(key@) {
                Some(&self@[key@])
            } else {
                None
            },
    {
        proof {
            use_type_invariant(self);
        }
        match self.root.walk(key) {
            Some(node) => node.value.as_ref(),
            None => None,
        }
    }

    /// Whether `key` is a stored key.
    pub fn contains_key(&self, key: &str) -> (found: bool)
        ensures
            found == self@.contains_key(key@),
    {
        proof {
            use_type_invariant(self);
        }
        match self.root.walk(key) {
            Some(node) => node.value.is_some(),
            None => false,
        }
    }

    /// Whether `prefix` resolves from the root, character by character.
    pub fn contains_prefix(&self, prefix: &str) -> (found: bool)
        ensures
            found == self.prefixes().contains(prefix@),
    {
        proof {
            use_type_invariant(self);
        }
        self.root.walk(prefix).is_some()
    }

    /// Whether the root has no branch: nothing but the empty sequence resolves.
    /// A value stored under the empty key does not count.
    pub fn is_empty(&self) -> (empty: bool)
        ensures
            empty == (forall|p: Seq<char>| self.prefixes().contains(p) ==> p.len() == 0),
    {
        proof {
            use_type_invariant(self);
            self.root.lemma_paths_of_leaf();
        }
        self.root.children.is_empty()
    }

    /// Drops every branch below the root. What is stored under the empty key stays.
    pub fn clear_branches(&mut self)
        ensures
            final(self)@ == old(self)@.restrict(set![Seq::<char>::empty()]),
            final(self).prefixes() == set![Seq::<char>::empty()],
    {
        proof {
            use_type_invariant(&*self);
        }
        let mut root = TrieMapNode::new();
        std::mem::swap(&mut root, &mut self.root);
        let ghost pre = root;
        root.labels.clear();
        root.children.clear();
        self.root = root;
        proof {
            let post = self.root;
            post.lemma_paths_of_leaf();
            assert(post.lookup(Seq::<char>::empty()) == pre.lookup(Seq::<char>::empty()));
            assert forall|k: Seq<char>| k.len() == 0 implies k == Seq::<char>::empty() by {
                assert(k =~= Seq::<char>::empty());
            }
            assert(post.entries() =~= pre.entries().restrict(set![Seq::<char>::empty()]));
        }
    }

    /// The stored keys that begin with `prefix`, in ascending lexicographic
    /// order, so that a key comes before each key that extends it.
    pub fn suggest(&self, prefix: &str) -> (suggestions: Vec<String>)
        ensures
            forall|k: Seq<char>|
                #![trigger key_views(suggestions@).contains(k)]
                #![trigger self@.contains_key(k)]
                key_views(suggestions@).contains(k) <==> self@.contains_key(k) && is_prefix_of(
                    prefix@,
                    k,
                ),
            strictly_ascending(key_views(suggestions@)),
            key_views(suggestions@).no_duplicates(),
            suggestions@.len() == 0 <==> forall|k: Seq<char>|
                #![trigger self@.contains_key(k)]
                self@.contains_key(k) ==> !is_prefix_of(prefix@, k),
            !self.prefixes().contains(prefix@) ==> suggestions@.len() == 0,
    {
        proof {
            use_type_invariant(self);
        }
        let mut suggestions: Vec<String> = Vec::new();
        match self.root.walk(prefix) {
            Some(node) => {
                node.suggest_helper(prefix, &mut suggestions);
                proof {
                    assert(suggestions@.skip(0) =~= suggestions@);
                    self.root.lemma_lists_below(*node, prefix@, key_views(suggestions@));
                    lemma_ascending_distinct(key_views(suggestions@));
                }
            },
            None => {
                proof {
                    assert forall|k: Seq<char>| is_prefix_of(prefix@, k) implies !self@.contains_key(
                        k,
                    ) by {
                        self.root.lemma_nothing_below(prefix@, k);
                    }
                }
            },
        }
        proof {
            let keys = key_views(suggestions@);
            assert forall|k: Seq<char>|
                keys.contains(k) <==> self@.contains_key(k) && is_prefix_of(prefix@, k) by {
                assert(self@.contains_key(k) == self.root.lookup(k) is Some);
            }
            if keys.len() > 0 {
                assert(keys.contains(keys[0]));
                assert(self@.contains_key(keys[0]) && is_prefix_of(prefix@, keys[0]));
            } else {
                assert forall|k: Seq<char>| self@.contains_key(k) implies !is_prefix_of(
                    prefix@,
                    k,
                ) by {
                    assert(!keys.contains(k));
                }
            }
        }
        suggestions
    }

    /// After `insert(key, value)`, `get(key)` gives `value` and
    /// `contains_key(key)` holds, whatever the map held before.
    pub proof fn lemma_insert_then_get(before: Self, after: Self, key: Seq<char>, value: T)
        requires
            after@ == before@.insert(key, value),
        ensures
            after@.contains_key(key),
            after@[key] == value,
    {
    }

    /// After `remove(key)`, `get(key)` gives nothing and `contains_key(key)`
    /// fails, whether or not `key` was stored; if it was not, the map is as it was.
    pub proof fn lemma_remove_then_get(before: Self, after: Self, key: Seq<char>)
        requires
            after@ == before@.remove(key),
        ensures
            !after@.contains_key(key),
            !before@.contains_key(key) ==> after@ == before@,
    {
        if !before@.contains_key(key) {
            assert(after@ =~= before@);
        }
    }

    /// Of two inserts under one key the second wins: the map is as if only
    /// the second had been made.
    pub proof fn lemma_last_insert_wins(
        before: Self,
        between: Self,
        after: Self,
        key: Seq<char>,
        first: T,
        second: T,
    )
        requires
            between@ == before@.insert(key, first),
            after@ == between@.insert(key, second),
        ensures
            after@[key] == second,
            after@ == before@.insert(key, second),
    {
        assert(after@ =~= before@.insert(key, second));
    }

    /// The empty sequence always resolves.
    pub proof fn lemma_empty_prefix(self)
        ensures
            self.prefixes().contains(Seq::<char>::empty()),
    {
        assert(self.root.descend(Seq::<char>::empty()) == Some(self.root));
    }

    /// Every prefix of a sequence that resolves resolves too.
    pub proof fn lemma_prefixes_closed(self, p: Seq<char>, k: Seq<char>)
        requires
            self.prefixes().contains(k),
            is_prefix_of(p, k),
        ensures
            self.prefixes().contains(p),
    {
        lemma_prefix_split(p, k);
        self.root.lemma_descend_concat(p, k.skip(p.len() as int));
    }

    /// Every prefix of a stored key resolves: the key itself, the empty
    /// sequence and all between.
    pub proof fn lemma_key_prefixes_resolve(self, p: Seq<char>, k: Seq<char>)
        requires
            self@.contains_key(k),
            is_prefix_of(p, k),
        ensures
            self.prefixes().contains(p),
    {
        assert(self.root.has_path(k));
        self.lemma_prefixes_closed(p, k);
    }

    /// After the insert of a key that is not empty, `is_empty` fails.
    pub proof fn lemma_insert_not_empty(before: Self, after: Self, key: Seq<char>)
        requires
            key.len() > 0,
            after.prefixes() == before.prefixes().union(prefixes_of(key)),
        ensures
            !(forall|p: Seq<char>| after.prefixes().contains(p) ==> p.len() == 0),
    {
        assert(key.subrange(0, key.len() as int) =~= key);
        assert(prefixes_of(key).contains(key));
        assert(after.prefixes().contains(key));
    }

    /// What `suggest` lists for a prefix is decided by the stored keys: two
    /// listings that both are in ascending order and hold exactly the stored
    /// keys that begin with `prefix` are the same listing.
    pub proof fn lemma_suggest_decided(
        self,
        prefix: Seq<char>,
        a: Seq<Seq<char>>,
        b: Seq<Seq<char>>,
    )
        requires
            strictly_ascending(a),
            strictly_ascending(b),
            forall|k: Seq<char>|
                #![trigger a.contains(k)]
                a.contains(k) <==> self@.contains_key(k) && is_prefix_of(prefix, k),
            forall|k: Seq<char>|
                #![trigger b.contains(k)]
                b.contains(k) <==> self@.contains_key(k) && is_prefix_of(prefix, k),
        ensures
            a == b,
    {
        assert forall|k: Seq<char>| a.contains(k) <==> b.contains(k) by {
            assert(a.contains(k) <==> self@.contains_key(k) && is_prefix_of(prefix, k));
            assert(b.contains(k) <==> self@.contains_key(k) && is_prefix_of(prefix, k));
        }
        lemma_ascending_unique(a, b);
    }
}

} // verus!
