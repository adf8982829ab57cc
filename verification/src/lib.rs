//! A prefix tree (trie) over sequences of copyable elements.
//!
//! A [`Trie<T>`] stores a set of finite sequences of `T`. Sequences are added
//! with [`Trie::insert`] and looked up with [`Trie::search`], either as exact
//! members or as prefixes of stored sequences. The abstract view of a trie
//! (written `t@`) is the set of sequences stored in it, a `Set<Seq<T>>`.

use vstd::laws_eq::obeys_concrete_eq;
use vstd::prelude::*;

verus! {

/// A node of the prefix tree.
///
/// Each node carries the outgoing edges (one per distinct element value,
/// each owning the child subtree) and a marker that is true exactly when
/// some inserted sequence ends at this node. The root node stands for the
/// empty sequence.
pub struct Trie<T> {
    /// Outgoing edges: element value and the child subtree it leads to.
    /// Keys are distinct; their order carries no meaning.
    children: Vec<(T, Trie<T>)>,
    /// True iff an inserted sequence terminates exactly at this node.
    is_end: bool,
}

impl<T> Trie<T> {
    /// The sequence `s` is stored in this subtree: a path labelled by the
    /// elements of `s` leads from this node to a node marked as an end.
    spec fn stored(self, s: Seq<T>) -> bool
        decreases s.len(),
    {
        if s.len() == 0 {
            self.is_end
        } else {
            exists|i: int|
                0 <= i < self.children@.len() && (#[trigger] self.children@[i]).0 == s[0]
                    && self.children@[i].1.stored(s.drop_first())
        }
    }

    /// A path labelled by the elements of `s` exists from this node.
    spec fn reaches(self, s: Seq<T>) -> bool
        decreases s.len(),
    {
        if s.len() == 0 {
            true
        } else {
            exists|i: int|
                0 <= i < self.children@.len() && (#[trigger] self.children@[i]).0 == s[0]
                    && self.children@[i].1.reaches(s.drop_first())
        }
    }

    /// At least one sequence is stored in this subtree.
    spec fn nonempty(self) -> bool {
        exists|u: Seq<T>| self.stored(u)
    }

    /// Well-formedness: at every node the edge labels are distinct, and every
    /// child subtree holds at least one stored sequence (nodes are only ever
    /// created on the path of an inserted sequence).
    pub closed spec fn wf(self) -> bool
        decreases self,
    {
        &&& (forall|i: int, j: int|
            0 <= i < j < self.children@.len() ==> (#[trigger] self.children@[i]).0 != (
            #[trigger] self.children@[j]).0)
        &&& (forall|i: int| 0 <= i < self.children@.len() ==> (#[trigger] self.children@[i]).1.wf())
        &&& (forall|i: int|
            0 <= i < self.children@.len() ==> (#[trigger] self.children@[i]).1.nonempty())
    }
}

impl<T> View for Trie<T> {
    type V = Set<Seq<T>>;

    /// The set of sequences stored in the trie.
    closed spec fn view(&self) -> Set<Seq<T>> {
        Set::new(|s: Seq<T>| self.stored(s))
    }
}

/// A nonempty path exists in a well-formed trie exactly when some stored
/// sequence extends it: every node lies on the path of a stored sequence.
proof fn lemma_reaches_iff_extension<T>(t: Trie<T>, s: Seq<T>)
    requires
        t.wf(),
    ensures
        t.reaches(s) <==> (s.len() == 0 || exists|u: Seq<T>|
            #[trigger] t.stored(u) && s.is_prefix_of(u)),
    decreases s.len(),
{
    if s.len() > 0 {
        let d = s.drop_first();
        if t.reaches(s) {
            let i0 = choose|i0: int|
                0 <= i0 < t.children@.len() && (#[trigger] t.children@[i0]).0 == s[0]
                    && t.children@[i0].1.reaches(d);
            let c = t.children@[i0].1;
            assert(c.wf() && c.nonempty());
            lemma_reaches_iff_extension(c, d);
            let w = if d.len() == 0 {
                choose|w: Seq<T>| c.stored(w)
            } else {
                choose|w: Seq<T>| #[trigger] c.stored(w) && d.is_prefix_of(w)
            };
            assert(c.stored(w));
            if d.len() == 0 {
                assert(d =~= w.subrange(0, 0));
                assert(d.is_prefix_of(w));
            }
            let u0 = seq![s[0]] + w;
            lemma_cons(s[0], w);
            assert(t.children@[i0].0 == u0[0] && t.children@[i0].1.stored(u0.drop_first()));
            assert(t.stored(u0));
            lemma_prefix_compose(s, u0);
        }
        if exists|u: Seq<T>| #[trigger] t.stored(u) && s.is_prefix_of(u) {
            let u = choose|u: Seq<T>| #[trigger] t.stored(u) && s.is_prefix_of(u);
            lemma_prefix_decompose(s, u);
            let i0 = choose|i0: int|
                0 <= i0 < t.children@.len() && (#[trigger] t.children@[i0]).0 == u[0]
                    && t.children@[i0].1.stored(u.drop_first());
            let c = t.children@[i0].1;
            assert(c.wf());
            lemma_reaches_iff_extension(c, d);
            if d.len() > 0 {
                assert(c.stored(u.drop_first()) && d.is_prefix_of(u.drop_first()));
            }
            assert(c.reaches(d));
            assert(t.children@[i0].0 == s[0] && t.children@[i0].1.reaches(d));
            assert(t.reaches(s));
        }
    }
}

/// Among children with pairwise distinct keys, a sequence is stored under a
/// given key exactly when it is stored in the one child that carries the key.
proof fn lemma_unique_child_stored<T>(t: Trie<T>, k: int, v: Seq<T>)
    requires
        forall|i: int, j: int|
            0 <= i < j < t.children@.len() ==> (#[trigger] t.children@[i]).0 != (
            #[trigger] t.children@[j]).0,
        0 <= k < t.children@.len(),
    ensures
        (exists|i: int|
            0 <= i < t.children@.len() && (#[trigger] t.children@[i]).0 == t.children@[k].0
                && t.children@[i].1.stored(v)) <==> t.children@[k].1.stored(v),
{
    if exists|i: int|
        0 <= i < t.children@.len() && (#[trigger] t.children@[i]).0 == t.children@[k].0
            && t.children@[i].1.stored(v) {
        let i0 = choose|i0: int|
            0 <= i0 < t.children@.len() && (#[trigger] t.children@[i0]).0 == t.children@[k].0
                && t.children@[i0].1.stored(v);
        assert(i0 == k) by {
            if i0 < k {
                assert((t.children@[i0]).0 != (t.children@[k]).0);
            }
            if k < i0 {
                assert((t.children@[k]).0 != (t.children@[i0]).0);
            }
        }
    }
    if t.children@[k].1.stored(v) {
        assert(0 <= k < t.children@.len() && (t.children@[k]).0 == t.children@[k].0
            && t.children@[k].1.stored(v));
    }
}

/// Among children with pairwise distinct keys, a path under a given key
/// exists exactly when it exists in the one child that carries the key.
proof fn lemma_unique_child_reaches<T>(t: Trie<T>, k: int, v: Seq<T>)
    requires
        forall|i: int, j: int|
            0 <= i < j < t.children@.len() ==> (#[trigger] t.children@[i]).0 != (
            #[trigger] t.children@[j]).0,
        0 <= k < t.children@.len(),
    ensures
        (exists|i: int|
            0 <= i < t.children@.len() && (#[trigger] t.children@[i]).0 == t.children@[k].0
                && t.children@[i].1.reaches(v)) <==> t.children@[k].1.reaches(v),
{
    if exists|i: int|
        0 <= i < t.children@.len() && (#[trigger] t.children@[i]).0 == t.children@[k].0
            && t.children@[i].1.reaches(v) {
        let i0 = choose|i0: int|
            0 <= i0 < t.children@.len() && (#[trigger] t.children@[i0]).0 == t.children@[k].0
                && t.children@[i0].1.reaches(v);
        assert(i0 == k) by {
            if i0 < k {
                assert((t.children@[i0]).0 != (t.children@[k]).0);
            }
            if k < i0 {
                assert((t.children@[k]).0 != (t.children@[i0]).0);
            }
        }
    }
    if t.children@[k].1.reaches(v) {
        assert(0 <= k < t.children@.len() && (t.children@[k]).0 == t.children@[k].0
            && t.children@[k].1.reaches(v));
    }
}

/// Prepending an element to a sequence: the shape of the result.
proof fn lemma_cons<T>(a: T, w: Seq<T>)
    ensures
        (seq![a] + w).len() == w.len() + 1,
        (seq![a] + w)[0] == a,
        (seq![a] + w).drop_first() == w,
{
    assert((seq![a] + w).drop_first() =~= w);
}

/// A nonempty prefix decomposes: the first elements agree and the rest of
/// the prefix is a prefix of the rest of the whole.
proof fn lemma_prefix_decompose<T>(s: Seq<T>, u: Seq<T>)
    requires
        s.len() > 0,
        s.is_prefix_of(u),
    ensures
        u.len() >= s.len(),
        s[0] == u[0],
        s.drop_first().is_prefix_of(u.drop_first()),
{
    assert(s =~= u.subrange(0, s.len() as int));
    assert(s[0] == u.subrange(0, s.len() as int)[0]);
    assert forall|j: int| 0 <= j < s.len() - 1 implies s.drop_first()[j] == u.drop_first().subrange(
        0,
        s.len() - 1,
    )[j] by {
        assert(s.drop_first()[j] == s[j + 1]);
        assert(s[j + 1] == u.subrange(0, s.len() as int)[j + 1]);
        assert(u.drop_first().subrange(0, s.len() - 1)[j] == u.drop_first()[j]);
        assert(u.drop_first()[j] == u[j + 1]);
    }
    assert(s.drop_first() =~= u.drop_first().subrange(0, s.len() - 1));
}

/// A prefix composes: if the first elements agree and the rest of `s` is a
/// prefix of the rest of `u`, then `s` is a prefix of `u`.
proof fn lemma_prefix_compose<T>(s: Seq<T>, u: Seq<T>)
    requires
        s.len() > 0,
        u.len() > 0,
        s[0] == u[0],
        s.drop_first().is_prefix_of(u.drop_first()),
    ensures
        s.is_prefix_of(u),
{
    assert(s.drop_first() =~= u.drop_first().subrange(0, s.len() - 1));
    assert forall|j: int| 0 <= j < s.len() implies s[j] == u.subrange(0, s.len() as int)[j] by {
        if j > 0 {
            assert(s[j] == s.drop_first()[j - 1]);
            assert(s.drop_first()[j - 1] == u.drop_first().subrange(0, s.len() - 1)[j - 1]);
            assert(u.drop_first().subrange(0, s.len() - 1)[j - 1] == u.drop_first()[j - 1]);
            assert(u.drop_first()[j - 1] == u[j]);
            assert(u.subrange(0, s.len() as int)[j] == u[j]);
        }
    }
    assert(s =~= u.subrange(0, s.len() as int));
}

/// A nonempty sequence that starts with `ss[ii]` and continues with the
/// suffix of `ss` from `ii + 1` is the suffix of `ss` from `ii`.
proof fn lemma_cons_suffix<T>(u: Seq<T>, ss: Seq<T>, ii: int)
    requires
        0 <= ii < ss.len(),
        u.len() > 0,
        u[0] == ss[ii],
        u.drop_first() == ss.skip(ii + 1),
    ensures
        u == ss.skip(ii),
{
    assert(u.drop_first().len() == u.len() - 1);
    assert(ss.skip(ii + 1).len() == ss.len() - ii - 1);
    assert(u.len() == ss.len() - ii);
    assert(ss.skip(ii).len() == ss.len() - ii);
    assert forall|j: int| 0 <= j < u.len() implies u[j] == ss.skip(ii)[j] by {
        if j == 0 {
            assert(ss.skip(ii)[0] == ss[ii]);
        } else {
            assert(u[j] == u.drop_first()[j - 1]);
            assert(ss.skip(ii + 1)[j - 1] == ss[(j - 1) + (ii + 1)]);
            assert(ss.skip(ii)[j] == ss[j + ii]);
        }
    }
    assert(u =~= ss.skip(ii));
}

/// Effect on `stored` of replacing the child at index `k` (key unchanged) by
/// one that additionally stores the suffix of `ss` that starts at `ii + 1`.
proof fn lemma_insert_rec_updated<T>(
    post: Trie<T>,
    pre: Trie<T>,
    k: int,
    cpre: Trie<T>,
    cpost: Trie<T>,
    ss: Seq<T>,
    ii: int,
)
    requires
        pre.wf(),
        0 <= ii < ss.len(),
        0 <= k < pre.children@.len(),
        pre.children@[k].0 == ss[ii],
        cpre == pre.children@[k].1,
        cpost.wf(),
        forall|u: Seq<T>| cpost.stored(u) <==> cpre.stored(u) || u == ss.skip(ii + 1),
        post.children@ == pre.children@.remove(k).insert(k, (pre.children@[k].0, cpost)),
        post.is_end == pre.is_end,
    ensures
        post.wf(),
        forall|u: Seq<T>| post.stored(u) <==> pre.stored(u) || u == ss.skip(ii),
{
    let e = pre.children@[k].0;
    assert(post.children@ =~= pre.children@.update(k, (e, cpost)));
    assert(post.children@.len() == pre.children@.len());
    assert forall|i: int| 0 <= i < post.children@.len() implies (#[trigger] post.children@[i]).0
        == pre.children@[i].0 && (i != k ==> post.children@[i] == pre.children@[i]) by {}
    assert(post.children@[k].1 == cpost);
    assert(cpost.stored(ss.skip(ii + 1)));
    // Well-formedness of the updated node.
    assert forall|i: int, j: int| 0 <= i < j < post.children@.len() implies (
    #[trigger] post.children@[i]).0 != (#[trigger] post.children@[j]).0 by {
        assert((pre.children@[i]).0 != (pre.children@[j]).0);
    }
    assert forall|i: int| 0 <= i < post.children@.len() implies (
    #[trigger] post.children@[i]).1.wf() by {
        if i != k {
            assert((pre.children@[i]).1.wf());
        }
    }
    assert forall|i: int| 0 <= i < post.children@.len() implies (
    #[trigger] post.children@[i]).1.nonempty() by {
        if i == k {
            assert(post.children@[i].1.stored(ss.skip(ii + 1)));
        } else {
            assert((pre.children@[i]).1.nonempty());
        }
    }
    assert(post.wf());
    // Facts about the inserted suffix.
    assert(ss.skip(ii).len() == ss.len() - ii);
    assert(ss.skip(ii)[0] == ss[ii]);
    assert(ss.skip(ii).drop_first() =~= ss.skip(ii + 1));
    // The stored sequences of the node grew by exactly that suffix.
    assert forall|u: Seq<T>| post.stored(u) <==> pre.stored(u) || u == ss.skip(ii) by {
        if u.len() == 0 {
            assert(u != ss.skip(ii));
        } else {
            let v = u.drop_first();
            if u[0] == e {
                lemma_unique_child_stored(post, k, v);
                lemma_unique_child_stored(pre, k, v);
                if v == ss.skip(ii + 1) {
                    lemma_cons_suffix(u, ss, ii);
                }
                if u == ss.skip(ii) {
                    assert(v == ss.skip(ii + 1));
                }
            } else {
                assert(u != ss.skip(ii)) by {
                    if u == ss.skip(ii) {
                        assert(u[0] == ss.skip(ii)[0]);
                    }
                }
                if post.stored(u) {
                    let i0 = choose|i0: int|
                        0 <= i0 < post.children@.len() && (#[trigger] post.children@[i0]).0 == u[0]
                            && post.children@[i0].1.stored(v);
                    assert(i0 != k);
                    assert(pre.children@[i0].0 == u[0] && pre.children@[i0].1.stored(v));
                    assert(pre.stored(u));
                }
                if pre.stored(u) {
                    let i0 = choose|i0: int|
                        0 <= i0 < pre.children@.len() && (#[trigger] pre.children@[i0]).0 == u[0]
                            && pre.children@[i0].1.stored(v);
                    assert(i0 != k);
                    assert(post.children@[i0].0 == u[0] && post.children@[i0].1.stored(v));
                    assert(post.stored(u));
                }
            }
        }
    }
}

/// Effect on `stored` of adding a fresh child whose key is `ss[ii]` and whose
/// subtree stores exactly the suffix of `ss` that starts at `ii + 1`.
proof fn lemma_insert_rec_pushed<T>(
    post: Trie<T>,
    pre: Trie<T>,
    cpost: Trie<T>,
    ss: Seq<T>,
    ii: int,
)
    requires
        pre.wf(),
        0 <= ii < ss.len(),
        forall|i: int| 0 <= i < pre.children@.len() ==> (#[trigger] pre.children@[i]).0 != ss[ii],
        cpost.wf(),
        forall|u: Seq<T>| cpost.stored(u) <==> u == ss.skip(ii + 1),
        post.children@ == pre.children@.push((ss[ii], cpost)),
        post.is_end == pre.is_end,
    ensures
        post.wf(),
        forall|u: Seq<T>| post.stored(u) <==> pre.stored(u) || u == ss.skip(ii),
{
    let n = pre.children@.len() as int;
    assert(post.children@.len() == n + 1);
    assert(post.children@[n] == (ss[ii], cpost));
    assert forall|i: int| 0 <= i < n implies post.children@[i] == pre.children@[i] by {}
    assert(cpost.stored(ss.skip(ii + 1)));
    // Well-formedness of the extended node.
    assert forall|i: int, j: int| 0 <= i < j < post.children@.len() implies (
    #[trigger] post.children@[i]).0 != (#[trigger] post.children@[j]).0 by {
        if j < n {
            assert((pre.children@[i]).0 != (pre.children@[j]).0);
        } else {
            assert((pre.children@[i]).0 != ss[ii]);
        }
    }
    assert forall|i: int| 0 <= i < post.children@.len() implies (
    #[trigger] post.children@[i]).1.wf() by {
        if i < n {
            assert((pre.children@[i]).1.wf());
        }
    }
    assert forall|i: int| 0 <= i < post.children@.len() implies (
    #[trigger] post.children@[i]).1.nonempty() by {
        if i == n {
            assert(post.children@[i].1.stored(ss.skip(ii + 1)));
        } else {
            assert((pre.children@[i]).1.nonempty());
        }
    }
    assert(post.wf());
    // Facts about the inserted suffix.
    assert(ss.skip(ii).len() == ss.len() - ii);
    assert(ss.skip(ii)[0] == ss[ii]);
    assert(ss.skip(ii).drop_first() =~= ss.skip(ii + 1));
    // The stored sequences of the node grew by exactly that suffix.
    assert forall|u: Seq<T>| post.stored(u) <==> pre.stored(u) || u == ss.skip(ii) by {
        if u.len() == 0 {
            assert(u != ss.skip(ii));
        } else {
            let v = u.drop_first();
            if u[0] == ss[ii] {
                if pre.stored(u) {
                    let i0 = choose|i0: int|
                        0 <= i0 < pre.children@.len() && (#[trigger] pre.children@[i0]).0 == u[0]
                            && pre.children@[i0].1.stored(v);
                    assert(false);
                }
                if post.stored(u) {
                    let i0 = choose|i0: int|
                        0 <= i0 < post.children@.len() && (#[trigger] post.children@[i0]).0 == u[0]
                            && post.children@[i0].1.stored(v);
                    assert(i0 == n);
                    assert(cpost.stored(v));
                    assert(v == ss.skip(ii + 1));
                    lemma_cons_suffix(u, ss, ii);
                }
                if u == ss.skip(ii) {
                    assert(v == ss.skip(ii + 1));
                    assert(cpost.stored(v));
                    assert(post.children@[n].0 == u[0] && post.children@[n].1.stored(v));
                    assert(post.stored(u));
                }
            } else {
                assert(u != ss.skip(ii)) by {
                    if u == ss.skip(ii) {
                        assert(u[0] == ss.skip(ii)[0]);
                    }
                }
                if post.stored(u) {
                    let i0 = choose|i0: int|
                        0 <= i0 < post.children@.len() && (#[trigger] post.children@[i0]).0 == u[0]
                            && post.children@[i0].1.stored(v);
                    assert(i0 != n);
                    assert(pre.children@[i0].0 == u[0] && pre.children@[i0].1.stored(v));
                    assert(pre.stored(u));
                }
                if pre.stored(u) {
                    let i0 = choose|i0: int|
                        0 <= i0 < pre.children@.len() && (#[trigger] pre.children@[i0]).0 == u[0]
                            && pre.children@[i0].1.stored(v);
                    assert(post.children@[i0].0 == u[0] && post.children@[i0].1.stored(v));
                    assert(post.stored(u));
                }
            }
        }
    }
}

impl<T> Trie<T> {
    /// Construct an empty trie: no children, nothing stored.
    pub fn new() -> (t: Self)
        ensures
            t.wf(),
            t@ == Set::<Seq<T>>::empty(),
    {
        let t = Trie { children: Vec::new(), is_end: false };
        proof {
            assert(t@ =~= Set::<Seq<T>>::empty());
        }
        t
    }
}

impl<T: Copy + Eq> Trie<T> {
    /// Index of the child whose key equals `elem`, if one exists.
    fn find_child(&self, elem: &T) -> (r: Option<usize>)
        requires
            obeys_concrete_eq::<T>(),
        ensures
            match r {
                Some(k) => k < self.children@.len() && self.children@[k as int].0 == *elem,
                None => forall|i: int|
                    0 <= i < self.children@.len() ==> (#[trigger] self.children@[i]).0 != *elem,
            },
    {
        let n = self.children.len();
        let mut j: usize = 0;
        while j < n
            invariant
                obeys_concrete_eq::<T>(),
                n == self.children@.len(),
                j <= n,
                forall|i: int| 0 <= i < j ==> (#[trigger] self.children@[i]).0 != *elem,
            decreases n - j,
        {
            proof {
                reveal(obeys_concrete_eq);
            }
            if self.children[j].0 == *elem {
                return Some(j);
            }
            j += 1;
        }
        None
    }

    /// Add the suffix of `s` that starts at position `i` below this node.
    fn insert_rec(&mut self, s: &[T], i: usize)
        requires
            obeys_concrete_eq::<T>(),
            old(self).wf(),
            i <= s@.len(),
        ensures
            final(self).wf(),
            forall|u: Seq<T>|
                final(self).stored(u) <==> old(self).stored(u) || u == s@.skip(i as int),
        decreases s@.len() - i as int,
    {
        let ghost ss = s@;
        let ghost ii = i as int;
        if i == s.len() {
            self.is_end = true;
            proof {
                assert(ss.skip(ii) =~= Seq::<T>::empty());
                assert(self.children@ == old(self).children@);
                assert forall|i2: int, j2: int|
                    0 <= i2 < j2 < self.children@.len() implies (#[trigger] self.children@[i2]).0
                    != (#[trigger] self.children@[j2]).0 by {
                    assert((old(self).children@[i2]).0 != (old(self).children@[j2]).0);
                }
                assert forall|i2: int| 0 <= i2 < self.children@.len() implies (
                #[trigger] self.children@[i2]).1.wf() && self.children@[i2].1.nonempty() by {
                    assert((old(self).children@[i2]).1.wf());
                    assert((old(self).children@[i2]).1.nonempty());
                }
                assert(self.wf());
                assert forall|u: Seq<T>|
                    self.stored(u) <==> old(self).stored(u) || u == ss.skip(ii) by {
                    if u.len() == 0 {
                        assert(u =~= Seq::<T>::empty());
                        assert(self.stored(u));
                    } else {
                        assert(u != ss.skip(ii));
                        let v = u.drop_first();
                        if self.stored(u) {
                            let i0 = choose|i0: int|
                                0 <= i0 < self.children@.len() && (
                                #[trigger] self.children@[i0]).0 == u[0]
                                    && self.children@[i0].1.stored(v);
                            assert((old(self).children@[i0]).0 == u[0] && old(
                                self,
                            ).children@[i0].1.stored(v));
                            assert(old(self).stored(u));
                        }
                        if old(self).stored(u) {
                            let i0 = choose|i0: int|
                                0 <= i0 < old(self).children@.len() && (
                                #[trigger] old(self).children@[i0]).0 == u[0]
                                    && old(self).children@[i0].1.stored(v);
                            assert((self.children@[i0]).0 == u[0] && self.children@[i0].1.stored(
                                v,
                            ));
                            assert(self.stored(u));
                        }
                    }
                }
            }
        } else {
            let elem = s[i];
            match self.find_child(&elem) {
                Some(k) => {
                    let mut pair = self.children.remove(k);
                    let ghost cpre = pair.1;
                    proof {
                        assert(old(self).children@[k as int].1.wf());
                    }
                    pair.1.insert_rec(s, i + 1);
                    let ghost cpost = pair.1;
                    self.children.insert(k, pair);
                    proof {
                        lemma_insert_rec_updated(*self, *old(self), k as int, cpre, cpost, ss, ii);
                    }
                }
                None => {
                    let mut child = Trie::new();
                    let ghost c0 = child;
                    child.insert_rec(s, i + 1);
                    let ghost cpost = child;
                    self.children.push((elem, child));
                    proof {
                        assert forall|u: Seq<T>| cpost.stored(u) <==> u == ss.skip(ii + 1) by {
                            assert(c0@.contains(u) == c0.stored(u));
                        }
                        lemma_insert_rec_pushed(*self, *old(self), cpost, ss, ii);
                    }
                }
            }
        }
    }

    /// Add a sequence to the trie. Afterwards the trie stores exactly what it
    /// stored before, plus `sequence`.
    pub fn insert(&mut self, sequence: &[T])
        requires
            obeys_concrete_eq::<T>(),
            old(self).wf(),
        ensures
            final(self).wf(),
            final(self)@ == old(self)@.insert(sequence@),
    {
        self.insert_rec(sequence, 0);
        proof {
            assert(sequence@.skip(0) =~= sequence@);
            assert forall|u: Seq<T>|
                self@.contains(u) == old(self)@.insert(sequence@).contains(u) by {
                assert(self.stored(u) <==> old(self).stored(u) || u == sequence@.skip(0));
            }
            assert(self@ =~= old(self)@.insert(sequence@));
        }
    }

    /// Construct a trie that stores exactly `sequence`.
    pub fn from_sequence(sequence: &[T]) -> (t: Self)
        requires
            obeys_concrete_eq::<T>(),
        ensures
            t.wf(),
            t@ == Set::<Seq<T>>::empty().insert(sequence@),
    {
        let mut t = Trie::new();
        t.insert(sequence);
        t
    }

    /// Walk the path labelled by the suffix of `s` that starts at `i`.
    fn search_rec(&self, s: &[T], i: usize, is_prefix: bool) -> (r: bool)
        requires
            obeys_concrete_eq::<T>(),
            self.wf(),
            i <= s@.len(),
        ensures
            r == (if is_prefix {
                self.reaches(s@.skip(i as int))
            } else {
                self.stored(s@.skip(i as int))
            }),
        decreases s@.len() - i as int,
    {
        let ghost ss = s@;
        let ghost ii = i as int;
        if i == s.len() {
            proof {
                assert(ss.skip(ii) =~= Seq::<T>::empty());
            }
            self.is_end || is_prefix
        } else {
            proof {
                assert(ss.skip(ii).len() == ss.len() - ii);
                assert(ss.skip(ii)[0] == ss[ii]);
                assert(ss.skip(ii).drop_first() =~= ss.skip(ii + 1));
            }
            match self.find_child(&s[i]) {
                Some(k) => {
                    proof {
                        assert(self.children@[k as int].1.wf());
                        lemma_unique_child_stored(*self, k as int, ss.skip(ii + 1));
                        lemma_unique_child_reaches(*self, k as int, ss.skip(ii + 1));
                    }
                    self.children[k].1.search_rec(s, i + 1, is_prefix)
                }
                None => {
                    proof {
                        assert(!self.stored(ss.skip(ii)));
                        assert(!self.reaches(ss.skip(ii)));
                    }
                    false
                }
            }
        }
    }

    /// Look up `sequence`. With `is_prefix` false the result says whether
    /// `sequence` itself is stored; with `is_prefix` true it says whether
    /// `sequence` is a prefix of some stored sequence, where the empty
    /// sequence counts as a prefix of every trie.
    pub fn search(&self, sequence: &[T], is_prefix: bool) -> (r: bool)
        requires
            obeys_concrete_eq::<T>(),
            self.wf(),
        ensures
            r == (if is_prefix {
                sequence@.len() == 0 || exists|u: Seq<T>|
                    #[trigger] self@.contains(u) && sequence@.is_prefix_of(u)
            } else {
                self@.contains(sequence@)
            }),
    {
        let r = self.search_rec(sequence, 0, is_prefix);
        proof {
            assert(sequence@.skip(0) =~= sequence@);
            if is_prefix {
                lemma_reaches_iff_extension(*self, sequence@);
                if exists|u: Seq<T>| #[trigger] self.stored(u) && sequence@.is_prefix_of(u) {
                    let u = choose|u: Seq<T>|
                        #[trigger] self.stored(u) && sequence@.is_prefix_of(u);
                    assert(self@.contains(u) && sequence@.is_prefix_of(u));
                }
                if exists|u: Seq<T>| #[trigger] self@.contains(u) && sequence@.is_prefix_of(u) {
                    let u = choose|u: Seq<T>|
                        #[trigger] self@.contains(u) && sequence@.is_prefix_of(u);
                    assert(self.stored(u) && sequence@.is_prefix_of(u));
                }
            } else {
                assert(self@.contains(sequence@) == self.stored(sequence@));
            }
        }
        r
    }
}

/// After `insert(s)`, or `from_sequence(s)`, the sequence `s` is found
/// both as an exact member and as a prefix: `search(s, false)` and
/// `search(s, true)` both return true on the resulting trie.
pub proof fn lemma_found_after_insert<T>(pre: Trie<T>, post: Trie<T>, s: Seq<T>)
    requires
        post@ == pre@.insert(s),
    ensures
        post@.contains(s),
        exists|u: Seq<T>| #[trigger] post@.contains(u) && s.is_prefix_of(u),
{
    assert(s =~= s.subrange(0, s.len() as int));
    assert(post@.contains(s) && s.is_prefix_of(s));
}

/// A proper prefix `p` of an inserted sequence `s` that was not itself
/// inserted is found as a prefix but not as an exact member: on the trie
/// after `insert(s)`, `search(p, true)` returns true while `search(p, false)`
/// returns false.
pub proof fn lemma_proper_prefix_not_exact<T>(pre: Trie<T>, post: Trie<T>, s: Seq<T>, p: Seq<T>)
    requires
        post@ == pre@.insert(s),
        p.is_prefix_of(s),
        p.len() < s.len(),
        !pre@.contains(p),
    ensures
        !post@.contains(p),
        exists|u: Seq<T>| #[trigger] post@.contains(u) && p.is_prefix_of(u),
{
    assert(p != s);
    assert(post@.contains(s) && p.is_prefix_of(s));
}

/// Inserting a sequence twice leaves the trie with the same stored set as
/// inserting it once, so every later search gives the same result.
pub proof fn lemma_insert_idempotent<T>(pre: Trie<T>, once: Trie<T>, twice: Trie<T>, s: Seq<T>)
    requires
        once@ == pre@.insert(s),
        twice@ == once@.insert(s),
    ensures
        twice@ == once@,
{
    assert(twice@ =~= once@);
}

/// On an empty trie no sequence is an exact member and no nonempty sequence
/// is a prefix of a stored sequence; only the empty sequence succeeds as a
/// prefix query, through the first disjunct of the contract of `search`.
pub proof fn lemma_empty_trie_finds_nothing<T>(t: Trie<T>, s: Seq<T>)
    requires
        t@ == Set::<Seq<T>>::empty(),
    ensures
        !t@.contains(s),
        !(exists|u: Seq<T>| #[trigger] t@.contains(u) && s.is_prefix_of(u)),
{
    if exists|u: Seq<T>| #[trigger] t@.contains(u) && s.is_prefix_of(u) {
        let u = choose|u: Seq<T>| #[trigger] t@.contains(u) && s.is_prefix_of(u);
        assert(false);
    }
}

/// Monotonicity: a sequence found exactly stays found exactly after any
/// further insertion, and a sequence found as a prefix stays found as a
/// prefix.
pub proof fn lemma_found_stays_found<T>(pre: Trie<T>, post: Trie<T>, s: Seq<T>, added: Seq<T>)
    requires
        post@ == pre@.insert(added),
    ensures
        pre@.contains(s) ==> post@.contains(s),
        (exists|u: Seq<T>| #[trigger] pre@.contains(u) && s.is_prefix_of(u)) ==> (exists|u: Seq<T>|
            #[trigger] post@.contains(u) && s.is_prefix_of(u)),
{
    if exists|u: Seq<T>| #[trigger] pre@.contains(u) && s.is_prefix_of(u) {
        let u = choose|u: Seq<T>| #[trigger] pre@.contains(u) && s.is_prefix_of(u);
        assert(post@.contains(u) && s.is_prefix_of(u));
    }
}

impl<T> Default for Trie<T> {
    /// The default trie is the empty trie.
    fn default() -> (t: Self)
        ensures
            t.wf(),
            t@ == Set::<Seq<T>>::empty(),
    {
        Trie::new()
    }
}

} // verus!
