use crate::key_order::{
    block_before, is_prefix_of, lemma_block_deeper, lemma_block_precedes, lemma_block_siblings,
    lemma_precedes_deeper, lemma_precedes_extensions, lemma_prefix_split, lex_lt, precedes_all,
    strictly_ascending,
};
use crate::trie_map::TrieMapNode;
use vstd::prelude::*;

verus! {

impl<T> TrieMapNode<T> {
    /// `out` is, in strictly ascending order, `prefix + k` for exactly the
    /// keys `k` that `node` stores.
    pub(crate) open spec fn lists_keys(node: Self, prefix: Seq<char>, out: Seq<Seq<char>>) -> bool {
        &&& forall|n: int|
            0 <= n < out.len() ==> is_prefix_of(prefix, #[trigger] out[n]) && node.lookup(
                out[n].skip(prefix.len() as int),
            ) is Some
        &&& forall|k: Seq<char>| #[trigger] node.lookup(k) is Some ==> out.contains(prefix + k)
        &&& strictly_ascending(out)
    }

    /// The number of nodes of the subtree.
    pub(crate) open spec fn size(self) -> nat
        decreases self, self.children@.len() + 1,
    {
        1 + self.size_from(0)
    }

    /// The number of nodes below the children from position `i` on.
    pub(crate) open spec fn size_from(self, i: int) -> nat
        decreases self, self.children@.len() - i,
    {
        if 0 <= i < self.children@.len() {
            self.children@[i].size() + self.size_from(i + 1)
        } else {
            0
        }
    }

    /// The number of nodes in the subtrees of all frames.
    pub(crate) open spec fn weight(frames: Seq<(Self, Seq<char>)>) -> nat
        decreases frames.len(),
    {
        if frames.len() == 0 {
            0
        } else {
            frames.last().0.size() + Self::weight(frames.drop_last())
        }
    }

    /// The frames that a stack of nodes and keys stands for.
    pub(crate) open spec fn frames_of(stack: Seq<(&Self, String)>) -> Seq<(Self, Seq<char>)> {
        Seq::new(stack.len(), |i: int| (*stack[i].0, stack[i].1@))
    }

    /// The frame's node is the one that the frame's key leads to, the key
    /// spelled from the start of the walk with `prefix` before it.
    pub(crate) open spec fn frame_ok(start: Self, prefix: Seq<char>, frame: (Self, Seq<char>)) -> bool {
        &&& is_prefix_of(prefix, frame.1)
        &&& start.descend(frame.1.skip(prefix.len() as int)) == Some(frame.0)
        &&& frame.0.wf()
    }

    /// Some frame's key is a prefix of `k`: the walk has yet to reach `k`.
    pub(crate) open spec fn pending(frames: Seq<(Self, Seq<char>)>, k: Seq<char>) -> bool {
        exists|i: int| 0 <= i < frames.len() && is_prefix_of((#[trigger] frames[i]).1, k)
    }

    /// The state of a walk below `start`: `out` is what was listed, `frames`
    /// what is still to visit, the next frame last.
    pub(crate) open spec fn walk_inv(
        start: Self,
        prefix: Seq<char>,
        out: Seq<Seq<char>>,
        frames: Seq<(Self, Seq<char>)>,
    ) -> bool {
        &&& forall|i: int|
            0 <= i < frames.len() ==> Self::frame_ok(start, prefix, #[trigger] frames[i])
        &&& forall|n: int|
            0 <= n < out.len() ==> is_prefix_of(prefix, #[trigger] out[n]) && start.lookup(
                out[n].skip(prefix.len() as int),
            ) is Some
        &&& forall|k: Seq<char>| #[trigger]
            start.lookup(k) is Some ==> out.contains(prefix + k) || Self::pending(
                frames,
                prefix + k,
            )
        &&& strictly_ascending(out)
        &&& forall|n: int, i: int|
            0 <= n < out.len() && 0 <= i < frames.len() ==> precedes_all(
                #[trigger] out[n],
                (#[trigger] frames[i]).1,
            )
        &&& forall|i: int, j: int|
            0 <= i < j < frames.len() ==> block_before(
                (#[trigger] frames[j]).1,
                (#[trigger] frames[i]).1,
            )
    }

    /// The frame for the child at position `m` of the node of `top`.
    pub(crate) open spec fn child_frame(top: (Self, Seq<char>), m: int) -> (Self, Seq<char>) {
        (top.0.children@[m], top.1.push(top.0.labels@[m]))
    }

    /// `frames2` is `frames` with its last frame exchanged for the frames of
    /// that frame's children from position `from` on, the lowest position last.
    pub(crate) open spec fn expanded(
        frames: Seq<(Self, Seq<char>)>,
        frames2: Seq<(Self, Seq<char>)>,
        from: int,
    ) -> bool {
        let top = frames.last();
        let base = frames.len() - 1;
        let n = top.0.children@.len() as int;
        &&& frames.len() > 0
        &&& 0 <= from <= n
        &&& frames2.len() == base + (n - from)
        &&& forall|i: int| 0 <= i < base ==> #[trigger] frames2[i] == frames[i]
        &&& forall|m: int|
            from <= m < n ==> frames2[base + (n - 1 - m)] == #[trigger] Self::child_frame(top, m)
    }

    /// One more frame adds the size of its subtree.
    pub(crate) proof fn lemma_weight_push(frames: Seq<(Self, Seq<char>)>, frame: (Self, Seq<char>))
        ensures
            Self::weight(frames.push(frame)) == frame.0.size() + Self::weight(frames),
    {
        assert(frames.push(frame).drop_last() =~= frames);
    }

    /// A walk begins with the start node as its one frame and nothing listed.
    pub(crate) proof fn lemma_walk_start(start: Self, prefix: Seq<char>)
        requires
            start.wf(),
        ensures
            Self::walk_inv(start, prefix, Seq::empty(), seq![(start, prefix)]),
    {
        let frames = seq![(start, prefix)];
        assert(prefix.subrange(0, prefix.len() as int) =~= prefix);
        assert(prefix.skip(prefix.len() as int) =~= Seq::<char>::empty());
        assert(start.descend(Seq::<char>::empty()) == Some(start));
        assert(Self::frame_ok(start, prefix, frames[0]));
        assert forall|k: Seq<char>| #[trigger] start.lookup(k) is Some implies Self::pending(
            frames,
            prefix + k,
        ) by {
            lemma_prefix_split(prefix, k);
            assert(is_prefix_of(frames[0].1, prefix + k));
        }
    }

    /// Visiting the last frame keeps the state of the walk: its key is
    /// listed if its node has a value, and its children become frames.
    pub(crate) proof fn lemma_walk_step(
        start: Self,
        prefix: Seq<char>,
        out: Seq<Seq<char>>,
        frames: Seq<(Self, Seq<char>)>,
        out2: Seq<Seq<char>>,
        frames2: Seq<(Self, Seq<char>)>,
    )
        requires
            Self::walk_inv(start, prefix, out, frames),
            Self::expanded(frames, frames2, 0),
            out2 == if frames.last().0.value is Some {
                out.push(frames.last().1)
            } else {
                out
            },
        ensures
            Self::walk_inv(start, prefix, out2, frames2),
    {
        let top = frames.last();
        let node = top.0;
        let key = top.1;
        let base = frames.len() - 1;
        let n = node.children@.len() as int;
        let p = prefix.len() as int;
        let empty = Seq::<char>::empty();
        assert(Self::frame_ok(start, prefix, frames[base]));
        lemma_prefix_split(prefix, key);
        assert(key + empty =~= key);
        // Each frame of `frames2` is an old frame or the frame of a child.
        assert forall|j: int| base <= j < frames2.len() implies #[trigger] frames2[j]
            == Self::child_frame(top, n - 1 - (j - base)) by {
            let m = n - 1 - (j - base);
            assert(frames2[base + (n - 1 - m)] == Self::child_frame(top, m));
        }
        assert forall|j: int| 0 <= j < frames2.len() implies Self::frame_ok(
            start,
            prefix,
            #[trigger] frames2[j],
        ) by {
            if j < base {
                assert(frames2[j] == frames[j]);
            } else {
                let m = n - 1 - (j - base);
                let c = node.labels@[m];
                let deeper = key.push(c);
                assert(deeper.subrange(0, p) =~= key.subrange(0, p));
                assert(deeper.skip(p) =~= key.skip(p) + seq![c]);
                start.lemma_descend_concat(key.skip(p), seq![c]);
                node.lemma_child_index(c, m);
                assert(seq![c].drop_first() =~= empty);
                assert(node.children@[m].descend(empty) == Some(node.children@[m]));
                assert(node.descend(seq![c]) == Some(node.children@[m]));
            }
        }
        assert forall|x: int| 0 <= x < out2.len() implies is_prefix_of(prefix, #[trigger] out2[x])
            && start.lookup(out2[x].skip(p)) is Some by {
            if x < out.len() {
                assert(out2[x] == out[x]);
            }
        }
        assert forall|k: Seq<char>| #[trigger] start.lookup(k) is Some implies out2.contains(
            prefix + k,
        ) || Self::pending(frames2, prefix + k) by {
            let full = prefix + k;
            if out.contains(full) {
                let x = choose|x: int| 0 <= x < out.len() && out[x] == full;
                assert(out2[x] == full);
            } else {
                assert(Self::pending(frames, full));
                let i = choose|i: int| 0 <= i < frames.len() && is_prefix_of(frames[i].1, full);
                if i < base {
                    assert(frames2[i] == frames[i]);
                    assert(is_prefix_of(frames2[i].1, full));
                } else {
                    let rel = full.skip(key.len() as int);
                    lemma_prefix_split(key, full);
                    lemma_prefix_split(prefix, k);
                    assert(k =~= key.skip(p) + rel) by {
                        assert(full.skip(p) == k);
                        assert((key + rel).skip(p) =~= key.skip(p) + rel);
                    }
                    start.lemma_descend_concat(key.skip(p), rel);
                    if rel.len() == 0 {
                        assert(key + rel =~= key);
                        assert(out2[out.len() as int] == full);
                    } else {
                        let m = node.child_index(rel[0])->0;
                        let j = base + (n - 1 - m);
                        assert(frames2[j] == Self::child_frame(top, m));
                        assert(full.subrange(0, key.len() as int + 1) =~= key.push(rel[0]));
                        assert(is_prefix_of(frames2[j].1, full));
                    }
                }
            }
        }
        assert forall|x: int, y: int| 0 <= x < y < out2.len() implies lex_lt(out2[x], out2[y]) by {
            if y < out.len() {
                assert(lex_lt(out[x], out[y]));
            } else {
                assert(precedes_all(out[x], frames[base].1));
                assert(lex_lt(out[x], key + empty));
            }
        }
        assert forall|x: int, j: int|
            0 <= x < out2.len() && 0 <= j < frames2.len() implies precedes_all(
            #[trigger] out2[x],
            (#[trigger] frames2[j]).1,
        ) by {
            if j < base {
                assert(frames2[j] == frames[j]);
                if x < out.len() {
                    assert(precedes_all(out[x], frames[j].1));
                } else {
                    assert(block_before(frames[base].1, frames[j].1));
                    lemma_block_precedes(key, frames[j].1);
                }
            } else {
                let m = n - 1 - (j - base);
                let c = node.labels@[m];
                assert(key + seq![c] =~= key.push(c));
                if x < out.len() {
                    assert(precedes_all(out[x], frames[base].1));
                    lemma_precedes_deeper(out[x], key, seq![c]);
                } else {
                    lemma_precedes_extensions(key, c);
                }
            }
        }
        assert forall|i: int, j: int| 0 <= i < j < frames2.len() implies block_before(
            (#[trigger] frames2[j]).1,
            (#[trigger] frames2[i]).1,
        ) by {
            if j < base {
                assert(frames2[i] == frames[i]);
                assert(frames2[j] == frames[j]);
                assert(block_before(frames[j].1, frames[i].1));
            } else {
                let mj = n - 1 - (j - base);
                let cj = node.labels@[mj];
                assert(key + seq![cj] =~= key.push(cj));
                if i < base {
                    assert(frames2[i] == frames[i]);
                    assert(block_before(frames[base].1, frames[i].1));
                    lemma_block_deeper(key, frames[i].1, seq![cj]);
                } else {
                    let mi = n - 1 - (i - base);
                    assert(node.labels@[mj] < node.labels@[mi]);
                    lemma_block_siblings(key, cj, node.labels@[mi]);
                }
            }
        }
    }

    /// A walk with no frame left has listed every key below the start node.
    pub(crate) proof fn lemma_walk_done(start: Self, prefix: Seq<char>, out: Seq<Seq<char>>)
        requires
            Self::walk_inv(start, prefix, out, Seq::empty()),
        ensures
            Self::lists_keys(start, prefix, out),
    {
        assert forall|k: Seq<char>| #[trigger] start.lookup(k) is Some implies out.contains(
            prefix + k,
        ) by {
            assert(!Self::pending(Seq::empty(), prefix + k));
        }
    }

    /// What was listed for the node that `prefix` leads to is what the whole
    /// tree stores under keys that begin with `prefix`.
    pub(crate) proof fn lemma_lists_below(self, node: Self, prefix: Seq<char>, out: Seq<Seq<char>>)
        requires
            self.descend(prefix) == Some(node),
            Self::lists_keys(node, prefix, out),
        ensures
            forall|k: Seq<char>|
                out.contains(k) <==> self.lookup(k) is Some && is_prefix_of(prefix, k),
    {
        assert forall|k: Seq<char>|
            out.contains(k) <==> self.lookup(k) is Some && is_prefix_of(prefix, k) by {
            if out.contains(k) {
                let n = choose|n: int| 0 <= n < out.len() && out[n] == k;
                assert(is_prefix_of(prefix, out[n]));
            }
            if is_prefix_of(prefix, k) {
                let rel = k.skip(prefix.len() as int);
                lemma_prefix_split(prefix, k);
                self.lemma_descend_concat(prefix, rel);
                if node.lookup(rel) is Some {
                    assert(out.contains(prefix + rel));
                }
                if out.contains(k) {
                    let n = choose|n: int| 0 <= n < out.len() && out[n] == k;
                    assert(node.lookup(out[n].skip(prefix.len() as int)) is Some);
                }
            }
        }
    }
}

} // verus!
