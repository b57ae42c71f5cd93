use vstd::prelude::*;

verus! {

/// Whether `p` is a prefix of `k`; every sequence is a prefix of itself.
pub open spec fn is_prefix_of(p: Seq<char>, k: Seq<char>) -> bool {
    p.len() <= k.len() && k.subrange(0, p.len() as int) == p
}

/// The set of all prefixes of `k`, from the empty sequence to `k` itself.
pub open spec fn prefixes_of(k: Seq<char>) -> Set<Seq<char>> {
    Set::new(|p: Seq<char>| is_prefix_of(p, k))
}

/// Strict lexicographic order on keys, character by character; a proper
/// prefix comes before each of its extensions.
pub open spec fn lex_lt(a: Seq<char>, b: Seq<char>) -> bool
    decreases a.len(),
{
    if b.len() == 0 {
        false
    } else if a.len() == 0 {
        true
    } else if a[0] != b[0] {
        a[0] < b[0]
    } else {
        lex_lt(a.drop_first(), b.drop_first())
    }
}

/// Whether `keys` is strictly ascending in lexicographic order.
pub open spec fn strictly_ascending(keys: Seq<Seq<char>>) -> bool {
    forall|i: int, j: int| 0 <= i < j < keys.len() ==> lex_lt(keys[i], keys[j])
}

/// Two non-empty sequences are equal exactly when their heads and tails are.
pub(crate) proof fn lemma_head_tail(a: Seq<char>, b: Seq<char>)
    requires
        a.len() > 0,
        b.len() > 0,
    ensures
        a == b <==> a[0] == b[0] && a.drop_first() == b.drop_first(),
{
    if a[0] == b[0] && a.drop_first() == b.drop_first() {
        assert(a =~= seq![a[0]] + a.drop_first());
        assert(b =~= seq![b[0]] + b.drop_first());
    }
}

/// A non-empty `q` is a prefix of `key` exactly when the heads agree and
/// the tail of `q` is a prefix of the tail of `key`.
pub(crate) proof fn lemma_prefix_head_tail(q: Seq<char>, key: Seq<char>)
    requires
        q.len() > 0,
        key.len() > 0,
    ensures
        is_prefix_of(q, key) <==> q[0] == key[0] && is_prefix_of(q.drop_first(), key.drop_first()),
{
    let qt = q.drop_first();
    let kt = key.drop_first();
    if is_prefix_of(q, key) {
        assert(key.subrange(0, q.len() as int)[0] == q[0]);
        assert(kt.subrange(0, qt.len() as int) =~= key.subrange(0, q.len() as int).drop_first());
    }
    if q[0] == key[0] && is_prefix_of(qt, kt) {
        assert(key.subrange(0, q.len() as int) =~= seq![key[0]] + kt.subrange(0, qt.len() as int));
        assert(q =~= seq![q[0]] + qt);
    }
}

/// A key with prefix `p` is `p` followed by what remains after it.
pub(crate) proof fn lemma_prefix_split(p: Seq<char>, k: Seq<char>)
    ensures
        is_prefix_of(p, k) ==> k == p + k.skip(p.len() as int),
        is_prefix_of(p, p + k),
        (p + k).skip(p.len() as int) == k,
{
    if is_prefix_of(p, k) {
        assert(k =~= k.subrange(0, p.len() as int) + k.skip(p.len() as int));
    }
    assert((p + k).subrange(0, p.len() as int) =~= p);
    assert((p + k).skip(p.len() as int) =~= k);
}

/// No key is below itself.
pub proof fn lemma_lex_irreflexive(a: Seq<char>)
    ensures
        !lex_lt(a, a),
    decreases a.len(),
{
    if a.len() > 0 {
        lemma_lex_irreflexive(a.drop_first());
    }
}

/// The order is transitive.
pub proof fn lemma_lex_transitive(a: Seq<char>, b: Seq<char>, c: Seq<char>)
    requires
        lex_lt(a, b),
        lex_lt(b, c),
    ensures
        lex_lt(a, c),
    decreases a.len(),
{
    if a.len() > 0 && a[0] == b[0] && b[0] == c[0] {
        lemma_lex_transitive(a.drop_first(), b.drop_first(), c.drop_first());
    }
}

/// Of two different keys one is below the other.
pub proof fn lemma_lex_total(a: Seq<char>, b: Seq<char>)
    ensures
        a == b || lex_lt(a, b) || lex_lt(b, a),
    decreases a.len(),
{
    if a.len() > 0 && b.len() > 0 {
        if a[0] == b[0] {
            lemma_lex_total(a.drop_first(), b.drop_first());
            lemma_head_tail(a, b);
        }
    } else if a.len() == 0 && b.len() == 0 {
        assert(a =~= b);
    }
}

/// A common prefix does not change how two keys compare.
pub(crate) proof fn lemma_lex_common_prefix(p: Seq<char>, a: Seq<char>, b: Seq<char>)
    ensures
        lex_lt(p + a, p + b) == lex_lt(a, b),
    decreases p.len(),
{
    if p.len() == 0 {
        assert(p + a =~= a);
        assert(p + b =~= b);
    } else {
        let t = p.drop_first();
        assert((p + a).drop_first() =~= t + a);
        assert((p + b).drop_first() =~= t + b);
        lemma_lex_common_prefix(t, a, b);
    }
}

/// A strictly ascending sequence of keys holds no key twice.
pub proof fn lemma_ascending_distinct(keys: Seq<Seq<char>>)
    requires
        strictly_ascending(keys),
    ensures
        keys.no_duplicates(),
{
    assert forall|i: int, j: int| 0 <= i < keys.len() && 0 <= j < keys.len() && i != j implies keys[i]
        != keys[j] by {
        lemma_lex_irreflexive(keys[i]);
        if i < j {
            assert(lex_lt(keys[i], keys[j]));
        } else {
            assert(lex_lt(keys[j], keys[i]));
        }
    }
}

/// Two strictly ascending sequences that hold the same keys are the same
/// sequence: the keys alone decide what an ascending listing is.
pub proof fn lemma_ascending_unique(a: Seq<Seq<char>>, b: Seq<Seq<char>>)
    requires
        strictly_ascending(a),
        strictly_ascending(b),
        forall|k: Seq<char>| a.contains(k) <==> b.contains(k),
    ensures
        a == b,
    decreases a.len(),
{
    if a.len() == 0 {
        if b.len() > 0 {
            assert(b.contains(b[0]));
        }
        assert(a =~= b);
    } else {
        assert(a.contains(a[0]));
        let j = choose|j: int| 0 <= j < b.len() && b[j] == a[0];
        assert(b.contains(b[0]));
        let i = choose|i: int| 0 <= i < a.len() && a[i] == b[0];
        lemma_lex_irreflexive(a[0]);
        if i > 0 && j > 0 {
            assert(lex_lt(a[0], a[i]));
            assert(lex_lt(b[0], b[j]));
            lemma_lex_transitive(a[0], b[0], a[0]);
        }
        assert(a[0] == b[0]);
        let at = a.drop_first();
        let bt = b.drop_first();
        assert forall|k: Seq<char>| at.contains(k) <==> bt.contains(k) by {
            lemma_lex_irreflexive(k);
            if at.contains(k) {
                let m = choose|m: int| 0 <= m < at.len() && at[m] == k;
                assert(a[m + 1] == k);
                assert(lex_lt(a[0], a[m + 1]));
                assert(a.contains(k));
                let n = choose|n: int| 0 <= n < b.len() && b[n] == k;
                assert(bt[n - 1] == k);
            }
            if bt.contains(k) {
                let m = choose|m: int| 0 <= m < bt.len() && bt[m] == k;
                assert(b[m + 1] == k);
                assert(lex_lt(b[0], b[m + 1]));
                assert(b.contains(k));
                let n = choose|n: int| 0 <= n < a.len() && a[n] == k;
                assert(at[n - 1] == k);
            }
        }
        assert forall|x: int, y: int| 0 <= x < y < at.len() implies lex_lt(at[x], at[y]) by {
            assert(lex_lt(a[x + 1], a[y + 1]));
        }
        assert forall|x: int, y: int| 0 <= x < y < bt.len() implies lex_lt(bt[x], bt[y]) by {
            assert(lex_lt(b[x + 1], b[y + 1]));
        }
        lemma_ascending_unique(at, bt);
        assert(a =~= seq![a[0]] + at);
        assert(b =~= seq![b[0]] + bt);
    }
}

/// Every sequence that begins with `s` comes after `o`.
pub(crate) open spec fn precedes_all(o: Seq<char>, s: Seq<char>) -> bool {
    forall|x: Seq<char>| lex_lt(o, #[trigger] (s + x))
}

/// Every sequence that begins with `a` comes before every sequence that begins with `b`.
pub(crate) open spec fn block_before(a: Seq<char>, b: Seq<char>) -> bool {
    forall|x: Seq<char>, y: Seq<char>| lex_lt(#[trigger] (a + x), #[trigger] (b + y))
}

/// A sequence comes before all that it is a proper prefix of.
pub(crate) proof fn lemma_precedes_extensions(s: Seq<char>, c: char)
    ensures
        precedes_all(s, s.push(c)),
{
    assert forall|x: Seq<char>| lex_lt(s, #[trigger] (s.push(c) + x)) by {
        let rest = seq![c] + x;
        assert(s.push(c) + x =~= s + rest);
        assert(s + Seq::<char>::empty() =~= s);
        lemma_lex_common_prefix(s, Seq::<char>::empty(), rest);
    }
}

/// Two different next characters order all that follows them.
pub(crate) proof fn lemma_block_siblings(s: Seq<char>, c: char, d: char)
    requires
        c < d,
    ensures
        block_before(s.push(c), s.push(d)),
{
    assert forall|x: Seq<char>, y: Seq<char>|
        lex_lt(#[trigger] (s.push(c) + x), #[trigger] (s.push(d) + y)) by {
        let xs = seq![c] + x;
        let ys = seq![d] + y;
        assert(s.push(c) + x =~= s + xs);
        assert(s.push(d) + y =~= s + ys);
        lemma_lex_common_prefix(s, xs, ys);
    }
}

/// What comes before all of a block comes before all of each block inside it.
pub(crate) proof fn lemma_precedes_deeper(o: Seq<char>, s: Seq<char>, z: Seq<char>)
    requires
        precedes_all(o, s),
    ensures
        precedes_all(o, s + z),
{
    assert forall|x: Seq<char>| lex_lt(o, #[trigger] ((s + z) + x)) by {
        assert((s + z) + x =~= s + (z + x));
    }
}

/// A block inside a block keeps its place before another block.
pub(crate) proof fn lemma_block_deeper(a: Seq<char>, b: Seq<char>, z: Seq<char>)
    requires
        block_before(a, b),
    ensures
        block_before(a + z, b),
        block_before(a, b + z),
{
    assert forall|x: Seq<char>, y: Seq<char>|
        lex_lt(#[trigger] ((a + z) + x), #[trigger] (b + y)) by {
        assert((a + z) + x =~= a + (z + x));
    }
    assert forall|x: Seq<char>, y: Seq<char>|
        lex_lt(#[trigger] (a + x), #[trigger] ((b + z) + y)) by {
        assert((b + z) + y =~= b + (z + y));
    }
}

/// The first sequence of an earlier block comes before all of a later block.
pub(crate) proof fn lemma_block_precedes(a: Seq<char>, b: Seq<char>)
    requires
        block_before(a, b),
    ensures
        precedes_all(a, b),
{
    assert forall|x: Seq<char>| lex_lt(a, #[trigger] (b + x)) by {
        assert(a + Seq::<char>::empty() =~= a);
        assert(lex_lt(a + Seq::<char>::empty(), b + x));
    }
}

} // verus!
