use crate::key_order::{is_prefix_of, lemma_head_tail, lemma_prefix_head_tail, lemma_prefix_split};
use crate::trie_map::TrieMapNode;
use vstd::prelude::*;

verus! {

impl<T> TrieMapNode<T> {
    /// `post` stores what `pre` stores, except that `key` now has `value`;
    /// its paths are those of `pre` and the prefixes of `key`.
    pub(crate) open spec fn inserted(pre: Self, post: Self, key: Seq<char>, value: T) -> bool {
        &&& forall|q: Seq<char>| #[trigger]
            post.lookup(q) == if q == key {
                Some(value)
            } else {
                pre.lookup(q)
            }
        &&& forall|q: Seq<char>| #[trigger]
            post.has_path(q) == (pre.has_path(q) || is_prefix_of(q, key))
    }

    /// `post` stores what `pre` stores, except that `key` has no value;
    /// the paths are unchanged.
    pub(crate) open spec fn removed(pre: Self, post: Self, key: Seq<char>) -> bool {
        &&& forall|q: Seq<char>| #[trigger]
            post.lookup(q) == if q == key {
                None
            } else {
                pre.lookup(q)
            }
        &&& forall|q: Seq<char>| #[trigger] post.has_path(q) == pre.has_path(q)
    }

    /// With ascending labels, `child_index` is the one position that holds the label.
    pub(crate) proof fn lemma_child_index(self, c: char, i: int)
        requires
            self.ordered(),
            0 <= i < self.labels@.len(),
            self.labels@[i] == c,
        ensures
            self.child_index(c) == Some(i),
    {
        let j = choose|j: int| 0 <= j < self.labels@.len() && self.labels@[j] == c;
        if j < i {
            assert(self.labels@[j] < self.labels@[i]);
        } else if i < j {
            assert(self.labels@[i] < self.labels@[j]);
        }
    }

    /// How `descend` sees a node one of whose children was exchanged.
    pub(crate) proof fn lemma_descend_exchanged(pre: Self, post: Self, i: int, q: Seq<char>)
        requires
            pre.ordered(),
            0 <= i < pre.labels@.len(),
            post.labels@ == pre.labels@,
            post.children@ == pre.children@.update(i, post.children@[i]),
            q.len() > 0,
        ensures
            q[0] == pre.labels@[i] ==> pre.descend(q) == pre.children@[i].descend(q.drop_first()),
            q[0] == pre.labels@[i] ==> post.descend(q) == post.children@[i].descend(
                q.drop_first(),
            ),
            q[0] != pre.labels@[i] ==> post.descend(q) == pre.descend(q),
    {
        assert(post.ordered());
        if q[0] == pre.labels@[i] {
            pre.lemma_child_index(q[0], i);
            post.lemma_child_index(q[0], i);
        } else {
            match pre.child_index(q[0]) {
                Some(j) => {
                    post.lemma_child_index(q[0], j);
                },
                None => {
                    assert(post.child_index(q[0]) is None);
                },
            }
        }
    }

    /// A node whose value alone was exchanged has the paths it had, and the
    /// values it had under every key but the empty one.
    proof fn lemma_value_exchanged(pre: Self, post: Self, q: Seq<char>)
        requires
            post.labels@ == pre.labels@,
            post.children@ == pre.children@,
        ensures
            post.has_path(q) == pre.has_path(q),
            q.len() > 0 ==> post.descend(q) == pre.descend(q),
            q.len() == 0 ==> post.lookup(q) == post.value,
    {
        if q.len() > 0 {
            assert(post.child_index(q[0]) == pre.child_index(q[0]));
        }
    }

    /// What a node that got an empty child at `pos`, under the new label `c`,
    /// holds under one sequence `q`.
    proof fn lemma_grown_at(pre: Self, post: Self, pos: int, c: char, q: Seq<char>)
        requires
            pre.ordered(),
            0 <= pos <= pre.labels@.len(),
            forall|i: int| 0 <= i < pos ==> pre.labels@[i] < c,
            forall|i: int| pos <= i < pre.labels@.len() ==> c < pre.labels@[i],
            post.value == pre.value,
            post.labels@ == pre.labels@.insert(pos, c),
            post.children@.len() == post.labels@.len(),
            forall|i: int| 0 <= i < pos ==> post.children@[i] == pre.children@[i],
            forall|i: int| pos <= i < pre.labels@.len() ==> post.children@[i + 1] == pre.children@[i],
            post.children@[pos].value is None,
            post.children@[pos].labels@.len() == 0,
        ensures
            post.ordered(),
            post.lookup(q) == pre.lookup(q),
            post.has_path(q) == (pre.has_path(q) || q == seq![c]),
    {
        assert(post.ordered()) by {
            assert forall|i: int, j: int| 0 <= i < j < post.labels@.len() implies post.labels@[i]
                < post.labels@[j] by {
                let a = if i < pos { i } else { i - 1 };
                let b = if j < pos { j } else { j - 1 };
                if i != pos && j != pos {
                    assert(pre.labels@[a] < pre.labels@[b]);
                }
            }
        }
        if q.len() > 0 {
            if q[0] == c {
                post.lemma_child_index(c, pos);
                assert(pre.child_index(c) is None);
                let fresh = post.children@[pos];
                let rest = q.drop_first();
                if rest.len() > 0 {
                    assert(fresh.child_index(rest[0]) is None);
                    assert(fresh.descend(rest) is None);
                } else {
                    assert(q =~= seq![c]);
                    assert(fresh.descend(rest) == Some(fresh));
                }
                assert(pre.descend(q) is None);
                assert(post.descend(q) == fresh.descend(rest));
            } else {
                assert(q != seq![c]) by {
                    assert(seq![c][0] == c);
                }
                match pre.child_index(q[0]) {
                    Some(j) => {
                        let k = if j < pos { j } else { j + 1 };
                        assert(post.labels@[k] == q[0]);
                        post.lemma_child_index(q[0], k);
                        assert(post.children@[k] == pre.children@[j]);
                        assert(post.descend(q) == pre.descend(q));
                    },
                    None => {
                        assert forall|k: int| 0 <= k < post.labels@.len() implies post.labels@[k]
                            != q[0] by {
                            if k != pos {
                                let j = if k < pos { k } else { k - 1 };
                                assert(pre.labels@[j] != q[0]);
                            }
                        }
                        assert(post.child_index(q[0]) is None);
                        assert(post.descend(q) == pre.descend(q));
                    },
                }
            }
        } else {
            assert(q != seq![c]) by {
                assert(seq![c].len() == 1);
            }
        }
    }

    /// A node that got an empty child under a label it did not have stores
    /// what it stored, and has one path more: the new label.
    pub(crate) proof fn lemma_grown(pre: Self, post: Self, pos: int, c: char)
        requires
            pre.ordered(),
            0 <= pos <= pre.labels@.len(),
            forall|i: int| 0 <= i < pos ==> pre.labels@[i] < c,
            forall|i: int| pos <= i < pre.labels@.len() ==> c < pre.labels@[i],
            post.value == pre.value,
            post.labels@ == pre.labels@.insert(pos, c),
            post.children@.len() == post.labels@.len(),
            forall|i: int| 0 <= i < pos ==> post.children@[i] == pre.children@[i],
            forall|i: int| pos <= i < pre.labels@.len() ==> post.children@[i + 1] == pre.children@[i],
            post.children@[pos].value is None,
            post.children@[pos].labels@.len() == 0,
        ensures
            post.ordered(),
            forall|q: Seq<char>| #[trigger] post.lookup(q) == pre.lookup(q),
            forall|q: Seq<char>| #[trigger] post.has_path(q) == (pre.has_path(q) || q == seq![c]),
    {
        Self::lemma_grown_at(pre, post, pos, c, Seq::empty());
        assert forall|q: Seq<char>| #[trigger] post.lookup(q) == pre.lookup(q) by {
            Self::lemma_grown_at(pre, post, pos, c, q);
        }
        assert forall|q: Seq<char>| #[trigger]
            post.has_path(q) == (pre.has_path(q) || q == seq![c]) by {
            Self::lemma_grown_at(pre, post, pos, c, q);
        }
    }

    /// A node that only gained an empty child stores `key` after an insert
    /// below that child just as if nothing had been gained before.
    pub(crate) proof fn lemma_inserted_into_grown(
        pre: Self,
        mid: Self,
        post: Self,
        c: char,
        key: Seq<char>,
        value: T,
    )
        requires
            key.len() > 0,
            key[0] == c,
            forall|q: Seq<char>| #[trigger] mid.lookup(q) == pre.lookup(q),
            forall|q: Seq<char>| #[trigger] mid.has_path(q) == (pre.has_path(q) || q == seq![c]),
            Self::inserted(mid, post, key, value),
        ensures
            Self::inserted(pre, post, key, value),
    {
        assert forall|q: Seq<char>| #[trigger]
            post.lookup(q) == if q == key {
                Some(value)
            } else {
                pre.lookup(q)
            } by {
            assert(mid.lookup(q) == pre.lookup(q));
        }
        assert forall|q: Seq<char>| #[trigger]
            post.has_path(q) == (pre.has_path(q) || is_prefix_of(q, key)) by {
            if mid.has_path(q) && q == seq![c] {
                assert(key.subrange(0, 1) =~= q);
            }
        }
    }

    /// Inserting below the child that the head of `key` leads to inserts `key` here.
    pub(crate) proof fn lemma_inserted_child(pre: Self, post: Self, i: int, key: Seq<char>, value: T)
        requires
            pre.ordered(),
            0 <= i < pre.labels@.len(),
            key.len() > 0,
            pre.labels@[i] == key[0],
            post.value == pre.value,
            post.labels@ == pre.labels@,
            post.children@ == pre.children@.update(i, post.children@[i]),
            Self::inserted(pre.children@[i], post.children@[i], key.drop_first(), value),
        ensures
            Self::inserted(pre, post, key, value),
    {
        let tail = key.drop_first();
        assert forall|q: Seq<char>| #[trigger]
            post.lookup(q) == if q == key {
                Some(value)
            } else {
                pre.lookup(q)
            } by {
            if q.len() > 0 {
                Self::lemma_descend_exchanged(pre, post, i, q);
                lemma_head_tail(q, key);
                if q[0] == key[0] {
                    assert(post.children@[i].lookup(q.drop_first()) == if q.drop_first() == tail {
                        Some(value)
                    } else {
                        pre.children@[i].lookup(q.drop_first())
                    });
                }
            }
        }
        assert forall|q: Seq<char>| #[trigger]
            post.has_path(q) == (pre.has_path(q) || is_prefix_of(q, key)) by {
            if q.len() > 0 {
                Self::lemma_descend_exchanged(pre, post, i, q);
                lemma_prefix_head_tail(q, key);
                if q[0] == key[0] {
                    assert(post.children@[i].has_path(q.drop_first()) == (
                    pre.children@[i].has_path(q.drop_first()) || is_prefix_of(
                        q.drop_first(),
                        tail,
                    )));
                }
            } else {
                assert(key.subrange(0, 0) =~= q);
            }
        }
    }

    /// Removing below the child that the head of `key` leads to removes `key` here.
    pub(crate) proof fn lemma_removed_child(pre: Self, post: Self, i: int, key: Seq<char>)
        requires
            pre.ordered(),
            0 <= i < pre.labels@.len(),
            key.len() > 0,
            pre.labels@[i] == key[0],
            post.value == pre.value,
            post.labels@ == pre.labels@,
            post.children@ == pre.children@.update(i, post.children@[i]),
            Self::removed(pre.children@[i], post.children@[i], key.drop_first()),
        ensures
            Self::removed(pre, post, key),
    {
        let tail = key.drop_first();
        assert forall|q: Seq<char>| #[trigger]
            post.lookup(q) == if q == key {
                None
            } else {
                pre.lookup(q)
            } by {
            if q.len() > 0 {
                Self::lemma_descend_exchanged(pre, post, i, q);
                lemma_head_tail(q, key);
                if q[0] == key[0] {
                    assert(post.children@[i].lookup(q.drop_first()) == if q.drop_first() == tail {
                        None
                    } else {
                        pre.children@[i].lookup(q.drop_first())
                    });
                }
            }
        }
        assert forall|q: Seq<char>| #[trigger] post.has_path(q) == pre.has_path(q) by {
            if q.len() > 0 {
                Self::lemma_descend_exchanged(pre, post, i, q);
                if q[0] == key[0] {
                    assert(post.children@[i].has_path(q.drop_first()) == pre.children@[i].has_path(
                        q.drop_first(),
                    ));
                }
            }
        }
    }

    /// Following `a + b` is following `a` and then `b`.
    pub(crate) proof fn lemma_descend_concat(self, a: Seq<char>, b: Seq<char>)
        ensures
            self.descend(a + b) == match self.descend(a) {
                Some(node) => node.descend(b),
                None => None,
            },
        decreases a.len(),
    {
        if a.len() == 0 {
            assert(a + b =~= b);
        } else {
            assert((a + b)[0] == a[0]);
            assert((a + b).drop_first() =~= a.drop_first() + b);
            match self.child_index(a[0]) {
                Some(i) => {
                    self.children@[i].lemma_descend_concat(a.drop_first(), b);
                },
                None => {},
            }
        }
    }

    /// A node without children has no path but the empty one; a node with
    /// children has a path of one character.
    pub(crate) proof fn lemma_paths_of_leaf(self)
        requires
            self.ordered(),
        ensures
            self.children@.len() == 0 <==> forall|p: Seq<char>| self.has_path(p) ==> p.len() == 0,
            self.children@.len() == 0 ==> self.paths() == set![Seq::<char>::empty()],
            self.children@.len() == 0 ==> forall|k: Seq<char>|
                k.len() > 0 ==> self.lookup(k) is None,
    {
        if self.children@.len() == 0 {
            assert forall|p: Seq<char>| self.has_path(p) implies p.len() == 0 by {
                if p.len() > 0 {
                    assert(self.child_index(p[0]) is None);
                }
            }
            assert forall|p: Seq<char>| self.has_path(p) <==> p == Seq::<char>::empty() by {
                if p.len() == 0 {
                    assert(p =~= Seq::<char>::empty());
                }
            }
            assert(self.paths() =~= set![Seq::<char>::empty()]);
        } else {
            let p = seq![self.labels@[0]];
            self.lemma_child_index(p[0], 0);
            assert(self.children@[0].descend(p.drop_first()) is Some);
            assert(self.has_path(p));
        }
    }

    /// Where `prefix` leads nowhere, no stored key begins with it.
    pub(crate) proof fn lemma_nothing_below(self, prefix: Seq<char>, k: Seq<char>)
        requires
            self.descend(prefix) is None,
            is_prefix_of(prefix, k),
        ensures
            self.descend(k) is None,
    {
        lemma_prefix_split(prefix, k);
        self.lemma_descend_concat(prefix, k.skip(prefix.len() as int));
    }

    /// Giving a node a value stores the empty key at it and changes nothing else.
    pub(crate) proof fn lemma_value_stored(pre: Self, post: Self, value: T)
        requires
            post.labels@ == pre.labels@,
            post.children@ == pre.children@,
            post.value == Some(value),
        ensures
            Self::inserted(pre, post, Seq::empty(), value),
    {
        let empty = Seq::<char>::empty();
        assert forall|q: Seq<char>| #[trigger]
            post.lookup(q) == if q == empty {
                Some(value)
            } else {
                pre.lookup(q)
            } by {
            Self::lemma_value_exchanged(pre, post, q);
            if q.len() == 0 {
                assert(q =~= empty);
            }
        }
        assert forall|q: Seq<char>| #[trigger]
            post.has_path(q) == (pre.has_path(q) || is_prefix_of(q, empty)) by {
            Self::lemma_value_exchanged(pre, post, q);
        }
    }

    /// Taking a node's value away removes the empty key at it and changes nothing else.
    pub(crate) proof fn lemma_value_cleared(pre: Self, post: Self)
        requires
            post.labels@ == pre.labels@,
            post.children@ == pre.children@,
            post.value is None,
        ensures
            Self::removed(pre, post, Seq::empty()),
    {
        let empty = Seq::<char>::empty();
        assert forall|q: Seq<char>| #[trigger]
            post.lookup(q) == if q == empty {
                None
            } else {
                pre.lookup(q)
            } by {
            Self::lemma_value_exchanged(pre, post, q);
            if q.len() == 0 {
                assert(q =~= empty);
            }
        }
        assert forall|q: Seq<char>| #[trigger] post.has_path(q) == pre.has_path(q) by {
            Self::lemma_value_exchanged(pre, post, q);
        }
    }
}

} // verus!
