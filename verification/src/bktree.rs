//! BK-tree: a tree of words keyed by the Damerau-Levenshtein distance, and
//! the spelling corrector built on it.
//!
//! Every word below the child reached from a node by the edge keyed `k` lies
//! at distance `k` from that node's word.  The distance used here is the
//! restricted (optimal string alignment) form, which does not obey the
//! triangle inequality ("ca" → "ac" → "abc" costs 2, "ca" → "abc" costs 3),
//! so cutting the search at keys outside `[d - m, d + m]` could lose words
//! within `m`: the search visits every node, and finds all of them.
use vstd::prelude::*;
use crate::fuzzy::{damerau, damerau_levenshtein, lemma_damerau_symmetric, lemma_damerau_zero_iff_equal};
use crate::text::{
    byte_len, byte_len_exceeds, chars_of, decimal, join_space, join_with_space, push_all,
    split_whitespace, split_ws, str_eq, str_lowercase, to_lowercase, usize_to_decimal, views,
};
use crate::tokenizer::{spec_stem, stem};

verus! {

/// A node of the tree: a word and its children, each under its distance from
/// this word.  The ghost path lists the ancestors from the root down.
struct BKNode {
    word: String,
    children: Vec<(usize, usize)>,
    path: Ghost<Seq<int>>,
}

/// The nodes of a tree, in insertion order, the root first.
struct BKArena {
    nodes: Vec<BKNode>,
}

/// The BK-Tree itself: its nodes and the number of insertions made.
pub struct BKTree {
    arena: BKArena,
    size: usize,
}

impl BKArena {
    spec fn words(&self) -> Seq<Seq<char>> {
        self.nodes@.map_values(|n: BKNode| n.word@)
    }

    spec fn word(&self, i: int) -> Seq<char> {
        self.nodes@[i].word@
    }

    spec fn path(&self, i: int) -> Seq<int> {
        self.nodes@[i].path@
    }

    spec fn kids(&self, i: int) -> Seq<(usize, usize)> {
        self.nodes@[i].children@
    }

    /// The node after position `k` on the way from the root to `c`.
    spec fn next_on_path(&self, c: int, k: int) -> int {
        if k + 1 < self.path(c).len() {
            self.path(c)[k + 1]
        } else {
            c
        }
    }

    /// Shape of the tree: paths, children, keys.
    spec fn shape_ok(&self) -> bool {
        let n = self.nodes@.len();
        &&& n > 0 ==> self.path(0) == Seq::<int>::empty()
        &&& forall|i: int|
            0 < i < n ==> #[trigger] self.path(i).len() > 0 && self.path(i)[0] == 0
                && self.path(i) == self.path(self.path(i).last()).push(self.path(i).last())
        &&& forall|i: int, k: int|
            0 <= i < n && 0 <= k < self.path(i).len() ==> 0 <= #[trigger] self.path(i)[k] < i
        &&& forall|i: int, j: int|
            0 <= i < n && 0 <= j < self.kids(i).len() ==> {
                let e = #[trigger] self.kids(i)[j];
                &&& i < e.1 < n
                &&& self.path(e.1 as int) == self.path(i).push(i)
                &&& e.0 == damerau(self.word(i), self.word(e.1 as int))
            }
        &&& forall|i: int, j1: int, j2: int|
            0 <= i < n && 0 <= j1 < self.kids(i).len() && 0 <= j2 < self.kids(i).len() && j1
                != j2 ==> #[trigger] self.kids(i)[j1].0 != #[trigger] self.kids(i)[j2].0
        &&& forall|c: int| 0 < c < n ==> #[trigger] self.hangs(c)
    }

    /// Node `c` is listed among the children of its parent.
    spec fn hangs(&self, c: int) -> bool {
        exists|j: int|
            0 <= j < self.kids(self.path(c).last()).len() && self.kids(self.path(c).last())[j].1
                == c
    }

    /// Every word below a child lies at the child's key from the parent's word.
    spec fn keys_ok(&self) -> bool {
        forall|i: int, k: int|
            0 <= i < self.nodes@.len() && 0 <= k < self.path(i).len() ==> damerau(
                self.word(#[trigger] self.path(i)[k]),
                self.word(i),
            ) == damerau(self.word(self.path(i)[k]), self.word(self.next_on_path(i, k)))
    }

    /// The tree is well formed: shape and keys as above, words distinct and of
    /// lengths that fit the distance tables.
    spec fn wf(&self) -> bool {
        &&& self.shape_ok()
        &&& self.keys_ok()
        &&& forall|i: int, j: int|
            0 <= i < self.nodes@.len() && 0 <= j < self.nodes@.len() && i != j ==> self.word(i)
                != self.word(j)
        &&& forall|i: int| 0 <= i < self.nodes@.len() ==> #[trigger] self.word(i).len() <= isize::MAX
    }

    /// Position of the child of `node` under key `key`, if there is one.
    fn child_with_key(&self, node: usize, key: usize) -> (r: Option<usize>)
        requires
            node < self.nodes@.len(),
        ensures
            match r {
                Some(j) => j < self.kids(node as int).len() && self.kids(node as int)[j as int].0
                    == key,
                None => forall|j: int|
                    0 <= j < self.kids(node as int).len() ==> self.kids(node as int)[j].0 != key,
            },
    {
        let ch = &self.nodes[node].children;
        let mut j: usize = 0;
        while j < ch.len()
            invariant
                j <= ch@.len(),
                ch@ == self.kids(node as int),
                forall|t: int| 0 <= t < j ==> ch@[t].0 != key,
            decreases ch.len() - j,
        {
            if ch[j].0 == key {
                return Some(j);
            }
            j += 1;
        }
        None
    }

    /// The ancestors of an ancestor are a prefix of the path.
    proof fn lemma_path_prefix(&self, c: int, k: int)
        requires
            self.shape_ok(),
            0 <= c < self.nodes@.len(),
            0 <= k < self.path(c).len(),
        ensures
            self.path(self.path(c)[k]) == self.path(c).take(k),
        decreases c,
    {
        if self.nodes@.len() > 0 && c == 0 {
            assert(self.path(0).len() == 0);
        }
        assert(c > 0);
        let p = self.path(c).last();
        assert(self.path(c) == self.path(p).push(p));
        assert(0 <= p < c);
        if k == self.path(c).len() - 1 {
            assert(self.path(c).take(k) =~= self.path(p));
        } else {
            assert(self.path(c)[k] == self.path(p)[k]);
            self.lemma_path_prefix(p, k);
            assert(self.path(p).take(k) =~= self.path(c).take(k));
        }
    }

    /// The node after an ancestor on a path is a child of that ancestor.
    proof fn lemma_next_is_child(&self, c: int, k: int) -> (j: int)
        requires
            self.shape_ok(),
            0 <= c < self.nodes@.len(),
            0 <= k < self.path(c).len(),
        ensures
            0 <= j < self.kids(self.path(c)[k]).len(),
            self.kids(self.path(c)[k])[j].1 == self.next_on_path(c, k),
            self.path(self.next_on_path(c, k)) == self.path(c).take(k + 1),
    {
        let nx = self.next_on_path(c, k);
        if k + 1 < self.path(c).len() {
            self.lemma_path_prefix(c, k + 1);
        } else {
            assert(self.path(c).take(k + 1) =~= self.path(c));
        }
        self.lemma_path_prefix(c, k);
        assert(0 < nx);
        assert(self.path(nx).last() == self.path(c)[k]);
        assert(self.hangs(nx));
        choose|j: int|
            0 <= j < self.kids(self.path(nx).last()).len() && self.kids(self.path(nx).last())[j].1
                == nx
    }

    /// Adds `word` as a new leaf unless it is already in the tree.
    fn insert_word(&mut self, word: String)
        requires
            old(self).wf(),
            word@.len() <= isize::MAX,
        ensures
            final(self).wf(),
            final(self).words() == if old(self).words().contains(word@) {
                old(self).words()
            } else {
                old(self).words().push(word@)
            },
    {
        let ghost w = word@;
        let ghost n0 = self.nodes@.len() as int;
        if self.nodes.len() == 0 {
            self.nodes.push(BKNode { word, children: Vec::new(), path: Ghost(Seq::empty()) });
            proof {
                assert(self.words() =~= seq![w]);
                assert(old(self).words() =~= Seq::<Seq<char>>::empty());
            }
            return;
        }
        proof {
            assert forall|c: int|
                0 <= c < n0 && self.word(c) == w implies c == 0 || self.path(c).contains(0) by {
                if c > 0 {
                    assert(self.path(c).len() > 0);
                    assert(self.path(c)[0] == 0);
                }
            }
        }
        let mut cur: usize = 0;
        let mut dup = false;
        let mut leaf_key: usize = 0;
        loop
            invariant_except_break
                !dup,
            invariant
                *self == *old(self),
                self.wf(),
                w == word@,
                w.len() <= isize::MAX,
                n0 == self.nodes@.len(),
                cur < self.nodes@.len(),
                forall|k: int|
                    0 <= k < self.path(cur as int).len() ==> damerau(
                        self.word(#[trigger] self.path(cur as int)[k]),
                        w,
                    ) == damerau(
                        self.word(self.path(cur as int)[k]),
                        self.word(self.next_on_path(cur as int, k)),
                    ),
                forall|c: int|
                    0 <= c < n0 && self.word(c) == w ==> c == cur || self.path(c).contains(
                        cur as int,
                    ),
            ensures
                dup ==> self.words().contains(w),
                !dup ==> {
                    &&& leaf_key == damerau(self.word(cur as int), w)
                    &&& leaf_key != 0
                    &&& forall|j: int|
                        0 <= j < self.kids(cur as int).len() ==> self.kids(cur as int)[j].0
                            != leaf_key
                    &&& forall|c: int| 0 <= c < n0 ==> self.word(c) != w
                },
            decreases self.nodes@.len() - cur,
        {
            assert(self.word(cur as int).len() <= isize::MAX);
            let dist = damerau_levenshtein(self.nodes[cur].word.as_str(), word.as_str());
            proof {
                lemma_damerau_zero_iff_equal(self.word(cur as int), w);
            }
            if dist == 0 {
                proof {
                    assert(self.words()[cur as int] == w);
                }
                dup = true;
                break;
            }
            let found = self.child_with_key(cur, dist);
            let ghost ci = cur as int;
            // Where the word sits below `cur`, it sits below the child keyed `dist`.
            let ghost below = |c: int|
                0 <= c < n0 && self.word(c) == w && self.path(c).contains(ci);
            proof {
                assert forall|c: int| #[trigger] below(c) implies {
                    let kk = self.path(ci).len() as int;
                    &&& kk < self.path(c).len()
                    &&& self.path(c)[kk] == ci
                    &&& exists|j: int|
                        0 <= j < self.kids(ci).len() && self.kids(ci)[j].1 == self.next_on_path(
                            c,
                            kk,
                        ) && self.kids(ci)[j].0 == dist
                } by {
                    let kk0 = choose|kk0: int|
                        0 <= kk0 < self.path(c).len() && self.path(c)[kk0] == ci;
                    self.lemma_path_prefix(c, kk0);
                    assert(self.path(ci).len() == kk0);
                    let j = self.lemma_next_is_child(c, kk0);
                    assert(self.kids(ci)[j].0 == damerau(
                        self.word(ci),
                        self.word(self.next_on_path(c, kk0)),
                    ));
                }
            }
            match found {
                Some(j) => {
                    let nxt = self.nodes[cur].children[j].1;
                    proof {
                        assert(self.path(nxt as int) == self.path(ci).push(ci));
                        assert forall|k: int|
                            0 <= k < self.path(nxt as int).len() implies damerau(
                            self.word(#[trigger] self.path(nxt as int)[k]),
                            w,
                        ) == damerau(
                            self.word(self.path(nxt as int)[k]),
                            self.word(self.next_on_path(nxt as int, k)),
                        ) by {
                            if k < self.path(ci).len() {
                                assert(self.path(nxt as int)[k] == self.path(ci)[k]);
                                assert(self.next_on_path(nxt as int, k) == self.next_on_path(
                                    ci,
                                    k,
                                ));
                            } else {
                                assert(self.path(nxt as int)[k] == ci);
                                assert(self.next_on_path(nxt as int, k) == nxt);
                            }
                        }
                        assert forall|c: int|
                            0 <= c < n0 && self.word(c) == w implies c == nxt
                            || self.path(c).contains(nxt as int) by {
                            assert(c != ci);
                            assert(below(c));
                            let kk = self.path(ci).len() as int;
                            let j2 = choose|j2: int|
                                0 <= j2 < self.kids(ci).len() && self.kids(ci)[j2].1
                                    == self.next_on_path(c, kk) && self.kids(ci)[j2].0 == dist;
                            assert(j2 == j);
                            if kk + 1 < self.path(c).len() {
                                assert(self.path(c)[kk + 1] == nxt);
                            }
                        }
                    }
                    cur = nxt;
                },
                None => {
                    proof {
                        assert forall|c: int| 0 <= c < n0 implies self.word(c) != w by {
                            if self.word(c) == w {
                                assert(c != ci);
                                assert(below(c));
                            }
                        }
                    }
                    leaf_key = dist;
                    break;
                },
            }
        }
        if !dup {
            proof {
                assert forall|i: int| 0 <= i < n0 implies old(self).words()[i] != w by {
                    assert(old(self).words()[i] == self.word(i));
                }
            }
            let n = self.nodes.len();
            let ghost ci = cur as int;
            let ghost p = self.path(ci).push(ci);
            let ghost before = *self;
            self.nodes.push(BKNode { word, children: Vec::new(), path: Ghost(p) });
            self.nodes[cur].children.push((leaf_key, n));
            proof {
                self.lemma_insert_leaf(before, ci, w, leaf_key, n);
                assert(self.words() =~= old(self).words().push(w));
            }
        }
    }

    /// `self` is `before` with a new leaf holding `w` hung below `cur` under key `dist`.
    spec fn leaf_added(&self, before: Self, cur: int, w: Seq<char>, dist: usize, nu: usize) -> bool {
        let n = before.nodes@.len() as int;
        &&& nu == n
        &&& 0 <= cur < n
        &&& self.nodes@.len() == n + 1
        &&& forall|i: int| 0 <= i < n && i != cur ==> self.nodes@[i] == before.nodes@[i]
        &&& self.word(cur) == before.word(cur)
        &&& self.path(cur) == before.path(cur)
        &&& self.kids(cur) == before.kids(cur).push((dist, nu))
        &&& self.word(n) == w
        &&& self.path(n) == before.path(cur).push(cur)
        &&& self.kids(n) == Seq::<(usize, usize)>::empty()
    }

    proof fn lemma_leaf_frame(&self, before: Self, cur: int, w: Seq<char>, dist: usize, nu: usize)
        requires
            self.leaf_added(before, cur, w, dist, nu),
        ensures
            forall|i: int| 0 <= i < before.nodes@.len() ==> #[trigger] self.word(i) == before.word(i),
            forall|i: int| 0 <= i < before.nodes@.len() ==> #[trigger] self.path(i) == before.path(i),
            forall|i: int, j: int|
                0 <= i < before.nodes@.len() && 0 <= j < before.kids(i).len() ==> #[trigger] self.kids(
                    i,
                )[j] == before.kids(i)[j],
            forall|i: int|
                0 <= i < before.nodes@.len() ==> #[trigger] self.kids(i).len() == before.kids(i).len()
                    + if i == cur {
                    1int
                } else {
                    0int
                },
    {
        let n = before.nodes@.len() as int;
        assert forall|i: int| 0 <= i < n implies #[trigger] self.word(i) == before.word(i) by {
            if i != cur {
                assert(self.nodes@[i] == before.nodes@[i]);
            }
        }
        assert forall|i: int| 0 <= i < n implies #[trigger] self.path(i) == before.path(i) by {
            if i != cur {
                assert(self.nodes@[i] == before.nodes@[i]);
            }
        }
        assert forall|i: int, j: int|
            0 <= i < n && 0 <= j < before.kids(i).len() implies #[trigger] self.kids(i)[j]
            == before.kids(i)[j] by {
            if i != cur {
                assert(self.nodes@[i] == before.nodes@[i]);
            }
        }
        assert forall|i: int| 0 <= i < n implies #[trigger] self.kids(i).len() == before.kids(
            i,
        ).len() + if i == cur {
            1int
        } else {
            0int
        } by {
            if i != cur {
                assert(self.nodes@[i] == before.nodes@[i]);
            }
        }
    }

    #[verifier::rlimit(40)]
    proof fn lemma_leaf_edges(&self, before: Self, cur: int, w: Seq<char>, dist: usize, nu: usize)
        requires
            before.shape_ok(),
            self.leaf_added(before, cur, w, dist, nu),
            dist == damerau(before.word(cur), w),
            forall|j: int| 0 <= j < before.kids(cur).len() ==> before.kids(cur)[j].0 != dist,
        ensures
            forall|i: int, j: int|
                0 <= i < self.nodes@.len() && 0 <= j < self.kids(i).len() ==> {
                    let e = #[trigger] self.kids(i)[j];
                    &&& i < e.1 < self.nodes@.len()
                    &&& self.path(e.1 as int) == self.path(i).push(i)
                    &&& e.0 == damerau(self.word(i), self.word(e.1 as int))
                },
            forall|i: int, j1: int, j2: int|
                0 <= i < self.nodes@.len() && 0 <= j1 < self.kids(i).len() && 0 <= j2 < self.kids(
                    i,
                ).len() && j1 != j2 ==> #[trigger] self.kids(i)[j1].0 != #[trigger] self.kids(i)[j2].0,
    {
        let n = before.nodes@.len() as int;
        self.lemma_leaf_frame(before, cur, w, dist, nu);
        assert forall|i: int, j: int| 0 <= i < n + 1 && 0 <= j < self.kids(i).len() implies {
            let e = #[trigger] self.kids(i)[j];
            &&& i < e.1 < n + 1
            &&& self.path(e.1 as int) == self.path(i).push(i)
            &&& e.0 == damerau(self.word(i), self.word(e.1 as int))
        } by {
            if i < n && j < before.kids(i).len() {
                let e = before.kids(i)[j];
                assert(self.kids(i)[j] == e);
                assert(e.1 < n);
                assert(self.path(e.1 as int) == before.path(e.1 as int));
                assert(self.word(e.1 as int) == before.word(e.1 as int));
            } else if i < n {
                assert(i == cur);
                assert(self.kids(i)[j] == (dist, nu));
            }
        }
        assert forall|i: int, j1: int, j2: int|
            0 <= i < n + 1 && 0 <= j1 < self.kids(i).len() && 0 <= j2 < self.kids(i).len() && j1
                != j2 implies #[trigger] self.kids(i)[j1].0 != #[trigger] self.kids(i)[j2].0 by {
            if i < n {
                if j1 < before.kids(i).len() {
                    assert(self.kids(i)[j1] == before.kids(i)[j1]);
                } else {
                    assert(self.kids(i)[j1].0 == dist);
                }
                if j2 < before.kids(i).len() {
                    assert(self.kids(i)[j2] == before.kids(i)[j2]);
                } else {
                    assert(self.kids(i)[j2].0 == dist);
                }
            }
        }
    }

    #[verifier::rlimit(40)]
    proof fn lemma_leaf_shape(&self, before: Self, cur: int, w: Seq<char>, dist: usize, nu: usize)
        requires
            before.shape_ok(),
            self.leaf_added(before, cur, w, dist, nu),
            dist == damerau(before.word(cur), w),
            forall|j: int| 0 <= j < before.kids(cur).len() ==> before.kids(cur)[j].0 != dist,
        ensures
            self.shape_ok(),
    {
        let n = before.nodes@.len() as int;
        self.lemma_leaf_frame(before, cur, w, dist, nu);
        self.lemma_leaf_edges(before, cur, w, dist, nu);
        assert(self.path(0) == before.path(0));
        if cur > 0 {
            assert(before.path(cur)[0] == 0);
        }
        assert forall|i: int|
            0 < i < n + 1 implies #[trigger] self.path(i).len() > 0 && self.path(i)[0] == 0
            && self.path(i) == self.path(self.path(i).last()).push(self.path(i).last()) by {
            if i < n {
                assert(before.path(i).len() > 0);
                assert(0 <= before.path(i).last() < i);
            } else {
                assert(self.path(i).last() == cur);
            }
        }
        assert forall|i: int, k: int|
            0 <= i < n + 1 && 0 <= k < self.path(i).len() implies 0 <= #[trigger] self.path(
            i,
        )[k] < i by {
            if i == n {
                if k < before.path(cur).len() {
                    assert(self.path(i)[k] == before.path(cur)[k]);
                }
            } else {
                assert(self.path(i) == before.path(i));
            }
        }
        assert forall|c: int| 0 < c < self.nodes@.len() implies #[trigger] self.hangs(c) by {
            if c < n {
                assert(self.path(c) == before.path(c));
                let par = before.path(c).last();
                assert(before.path(c).len() > 0);
                assert(before.path(c)[before.path(c).len() - 1] == par);
                assert(par < c);
                assert(self.kids(par).len() >= before.kids(par).len());
                assert(before.hangs(c));
                let j = choose|j: int|
                    0 <= j < before.kids(par).len() && before.kids(par)[j].1 == c;
                assert(self.kids(par)[j] == before.kids(par)[j]);
                assert(0 <= j < self.kids(par).len() && self.kids(par)[j].1 == c);
            } else {
                assert(self.path(c).last() == cur);
                let j = before.kids(cur).len() as int;
                assert(self.kids(cur)[j].1 == c);
                assert(0 <= j < self.kids(cur).len());
            }
        }
    }

    /// The keys along the path of the new leaf hold.
    #[verifier::rlimit(40)]
    proof fn lemma_leaf_keys(&self, before: Self, cur: int, w: Seq<char>, dist: usize, nu: usize)
        requires
            before.wf(),
            self.leaf_added(before, cur, w, dist, nu),
            w.len() <= isize::MAX,
            dist == damerau(before.word(cur), w),
            forall|j: int| 0 <= j < before.kids(cur).len() ==> before.kids(cur)[j].0 != dist,
            forall|c: int| 0 <= c < before.nodes@.len() ==> before.word(c) != w,
            forall|k: int|
                0 <= k < before.path(cur).len() ==> damerau(
                    before.word(#[trigger] before.path(cur)[k]),
                    w,
                ) == damerau(before.word(before.path(cur)[k]), before.word(before.next_on_path(cur, k))),
        ensures
            self.keys_ok(),
    {
        let n = before.nodes@.len() as int;
        self.lemma_leaf_frame(before, cur, w, dist, nu);

        assert forall|i: int, k: int|
            0 <= i < n + 1 && 0 <= k < self.path(i).len() implies damerau(
            self.word(#[trigger] self.path(i)[k]),
            self.word(i),
        ) == damerau(self.word(self.path(i)[k]), self.word(self.next_on_path(i, k))) by {
            if i < n {
                assert(before.path(i)[k] < n);
                assert(before.next_on_path(i, k) < n);
            } else {
                if k < before.path(cur).len() {
                    assert(self.path(i)[k] == before.path(cur)[k]);
                    assert(self.next_on_path(i, k) == before.next_on_path(cur, k));
                    assert(before.path(cur)[k] < n);
                    assert(before.next_on_path(cur, k) <= cur);
                } else {
                    assert(self.path(i)[k] == cur);
                    assert(self.next_on_path(i, k) == i);
                }
            }
        }
    }

    /// Appending a new leaf below `cur` keeps the tree well formed.
    proof fn lemma_insert_leaf(&self, before: Self, cur: int, w: Seq<char>, dist: usize, nu: usize)
        requires
            before.wf(),
            self.leaf_added(before, cur, w, dist, nu),
            w.len() <= isize::MAX,
            dist == damerau(before.word(cur), w),
            forall|j: int| 0 <= j < before.kids(cur).len() ==> before.kids(cur)[j].0 != dist,
            forall|c: int| 0 <= c < before.nodes@.len() ==> before.word(c) != w,
            forall|k: int|
                0 <= k < before.path(cur).len() ==> damerau(
                    before.word(#[trigger] before.path(cur)[k]),
                    w,
                ) == damerau(before.word(before.path(cur)[k]), before.word(before.next_on_path(cur, k))),
        ensures
            self.wf(),
    {
        let n = before.nodes@.len() as int;
        self.lemma_leaf_frame(before, cur, w, dist, nu);
        self.lemma_leaf_shape(before, cur, w, dist, nu);
        self.lemma_leaf_keys(before, cur, w, dist, nu);
        assert(self.keys_ok());
        assert forall|i: int, j: int|
            0 <= i < n + 1 && 0 <= j < n + 1 && i != j implies self.word(i) != self.word(j) by {}
        assert forall|i: int| 0 <= i < n + 1 implies #[trigger] self.word(i).len() <= isize::MAX by {}
    }
}

impl BKArena {
    /// `a` is `c` or one of its ancestors.
    spec fn anc_or_self(&self, a: int, c: int) -> bool {
        a == c || self.path(c).contains(a)
    }

    /// Some node of the stack is `c` or an ancestor of it.
    spec fn covered(&self, stack: Seq<usize>, c: int) -> bool {
        exists|i: int| 0 <= i < stack.len() && self.anc_or_self(stack[i] as int, c)
    }

    /// `c` lies below `node`, and the child of `node` towards `c` is listed at
    /// position `j` or later.
    spec fn pending(&self, node: int, j: int, c: int) -> bool {
        &&& self.path(c).contains(node)
        &&& exists|t: int|
            j <= t < self.kids(node).len() && self.kids(node)[t].1 == self.next_on_path(
                c,
                self.path(node).len() as int,
            )
    }

    /// Where `node` is on the path of `c`, it stands at the position of its own depth.
    proof fn lemma_ancestor_position(&self, node: int, c: int) -> (kn: int)
        requires
            self.shape_ok(),
            0 <= c < self.nodes@.len(),
            self.path(c).contains(node),
        ensures
            kn == self.path(node).len(),
            0 <= kn < self.path(c).len(),
            self.path(c)[kn] == node,
    {
        let k = choose|k: int| 0 <= k < self.path(c).len() && self.path(c)[k] == node;
        self.lemma_path_prefix(c, k);
        k
    }

    /// A child of `nd` is a later node that hangs directly below it.
    proof fn lemma_push_child(&self, nd: int, j: int)
        requires
            self.wf(),
            0 <= nd < self.nodes@.len(),
            0 <= j < self.kids(nd).len(),
        ensures
            0 < self.kids(nd)[j].1 < self.nodes@.len(),
            self.path(self.kids(nd)[j].1 as int) == self.path(nd).push(nd),
            self.path(self.kids(nd)[j].1 as int).last() == nd,
    {
    }

    /// One more child of `node` considered: a node waiting for it is either
    /// still waiting, or lies at or below exactly this child.
    proof fn lemma_pending_step(&self, nd: int, j: int, c: int)
        requires
            self.wf(),
            0 <= nd < self.nodes@.len(),
            0 <= c < self.nodes@.len(),
            0 <= j < self.kids(nd).len(),
            self.pending(nd, j, c),
        ensures
            self.pending(nd, j + 1, c) || self.anc_or_self(self.kids(nd)[j].1 as int, c),
    {
        let kn = self.lemma_ancestor_position(nd, c);
        let tw = self.next_on_path(c, kn);
        let t = choose|t: int| j <= t < self.kids(nd).len() && self.kids(nd)[t].1 == tw;
        if t != j {
            assert(self.pending(nd, j + 1, c));
        } else if kn + 1 < self.path(c).len() {
            assert(self.path(c)[kn + 1] == tw);
            assert(self.path(c).contains(tw));
        }
    }

    /// The nodes already handled by a search: valid, each below a handled node.
    spec fn done_ok(&self, done: Set<int>) -> bool {
        forall|c: int|
            #[trigger] done.contains(c) ==> 0 <= c < self.nodes@.len() && (c > 0 ==> done.contains(
                self.path(c).last(),
            ))
    }

    /// The nodes waiting on the search stack: valid, not yet handled, hanging
    /// below a handled node, and each listed once.
    spec fn stack_ok(&self, done: Set<int>, stack: Seq<usize>) -> bool {
        &&& forall|i: int|
            0 <= i < stack.len() ==> {
                let s = #[trigger] stack[i] as int;
                &&& 0 <= s < self.nodes@.len()
                &&& !done.contains(s)
                &&& (s > 0 ==> done.contains(self.path(s).last()))
            }
        &&& forall|i: int, j: int|
            0 <= i < stack.len() && 0 <= j < stack.len() && i != j ==> stack[i] != stack[j]
    }

    /// Every node is handled or lies below a node on the stack.
    spec fn frontier_ok(&self, done: Set<int>, stack: Seq<usize>) -> bool {
        forall|c: int| 0 <= c < self.nodes@.len() ==> done.contains(c) || self.covered(stack, c)
    }

    /// The output so far: sorted by distance, words distinct, each the word of a
    /// handled node within `m`, and every handled node within `m` listed.
    spec fn out_ok(&self, q: Seq<char>, m: int, done: Set<int>, out: Seq<(String, usize)>) -> bool {
        &&& forall|i: int, j: int| 0 <= i <= j < out.len() ==> out[i].1 <= out[j].1
        &&& forall|i: int, j: int|
            0 <= i < out.len() && 0 <= j < out.len() && i != j ==> out[i].0@ != out[j].0@
        &&& forall|i: int|
            0 <= i < out.len() ==> exists|c: int|
                done.contains(c) && self.word(c) == (#[trigger] out[i]).0@ && out[i].1 == damerau(
                    q,
                    self.word(c),
                ) && out[i].1 <= m
        &&& forall|c: int|
            done.contains(c) && damerau(q, self.word(c)) <= m ==> exists|i: int|
                0 <= i < out.len() && (#[trigger] out[i]).0@ == self.word(c)
    }

    /// Handles `node`: its word joins the output, in distance order, when it
    /// lies within `max_dist` of the query.
    #[verifier::spinoff_prover]
    #[verifier::rlimit(50)]
    fn record(
        &self,
        out: &mut Vec<(String, usize)>,
        node: usize,
        d: usize,
        max_dist: usize,
        Ghost(q): Ghost<Seq<char>>,
        Ghost(done): Ghost<Set<int>>,
    )
        requires
            self.wf(),
            node < self.nodes@.len(),
            !done.contains(node as int),
            d == damerau(q, self.word(node as int)),
            self.done_ok(done),
            self.out_ok(q, max_dist as int, done, old(out)@),
        ensures
            self.out_ok(q, max_dist as int, done.insert(node as int), final(out)@),
    {
        let ghost nd = node as int;
        let ghost m = max_dist as int;
        let ghost old_out = out@;
        let ghost now = done.insert(nd);
        if d <= max_dist {
            let mut pos = out.len();
            while pos > 0 && out[pos - 1].1 > d
                invariant
                    pos <= out@.len(),
                    out@ == old_out,
                    forall|t: int| pos <= t < out@.len() ==> out@[t].1 > d,
                decreases pos,
            {
                pos -= 1;
            }
            let w = self.nodes[node].word.clone();
            proof {
                assert forall|t: int| 0 <= t < pos implies out@[t].1 <= d by {
                    assert(out@[t].1 <= out@[pos - 1].1);
                }
            }
            out.insert(pos, (w, d));
            proof {
                assert(out@ == old_out.insert(pos as int, (w, d)));
                assert forall|i: int| 0 <= i < out@.len() implies exists|c: int|
                    now.contains(c) && self.word(c) == (#[trigger] out@[i]).0@ && out@[i].1
                        == damerau(q, self.word(c)) && out@[i].1 <= m by {
                    if i < pos {
                        assert(out@[i] == old_out[i]);
                    } else if i > pos {
                        assert(out@[i] == old_out[i - 1]);
                    } else {
                        assert(now.contains(nd) && self.word(nd) == out@[i].0@);
                    }
                }
                assert forall|i: int, j: int|
                    0 <= i < out@.len() && 0 <= j < out@.len() && i != j implies out@[i].0@
                    != out@[j].0@ by {
                    if i != pos && j != pos {
                        let oi = if i < pos {
                            i
                        } else {
                            i - 1
                        };
                        let oj = if j < pos {
                            j
                        } else {
                            j - 1
                        };
                        assert(out@[i] == old_out[oi]);
                        assert(out@[j] == old_out[oj]);
                    } else {
                        let o = if i == pos {
                            j
                        } else {
                            i
                        };
                        let oo = if o < pos {
                            o
                        } else {
                            o - 1
                        };
                        assert(out@[o] == old_out[oo]);
                        let c = choose|c: int|
                            done.contains(c) && self.word(c) == (#[trigger] old_out[oo]).0@
                                && old_out[oo].1 == damerau(q, self.word(c)) && old_out[oo].1 <= m;
                        assert(c != nd);
                    }
                }
                assert forall|c: int|
                    now.contains(c) && damerau(q, self.word(c)) <= m implies exists|i: int|
                    0 <= i < out@.len() && (#[trigger] out@[i]).0@ == self.word(c) by {
                    if c == nd {
                        assert(out@[pos as int].0@ == self.word(c));
                    } else {
                        let i = choose|i: int|
                            0 <= i < old_out.len() && (#[trigger] old_out[i]).0@ == self.word(c);
                        if i < pos {
                            assert(out@[i] == old_out[i]);
                        } else {
                            assert(out@[i + 1] == old_out[i]);
                        }
                    }
                }
            }
        } else {
            proof {
                assert forall|i: int| 0 <= i < out@.len() implies exists|c: int|
                    now.contains(c) && self.word(c) == (#[trigger] out@[i]).0@ && out@[i].1
                        == damerau(q, self.word(c)) && out@[i].1 <= m by {
                    let c = choose|c: int|
                        done.contains(c) && self.word(c) == (#[trigger] old_out[i]).0@ && old_out[i].1
                            == damerau(q, self.word(c)) && old_out[i].1 <= m;
                    assert(now.contains(c));
                }
            }
        }
    }

    /// Pushes the children of `node`.
    fn push_children(&self, stack: &mut Vec<usize>, node: usize, Ghost(done): Ghost<Set<int>>)
        requires
            self.wf(),
            node < self.nodes@.len(),
            done.contains(node as int),
            self.done_ok(done),
            self.stack_ok(done, old(stack)@),
            forall|t: int|
                0 <= t < self.kids(node as int).len() ==> !done.contains(
                    #[trigger] self.kids(node as int)[t].1 as int,
                ),
            forall|i: int, t: int|
                #![trigger old(stack)@[i], self.kids(node as int)[t]]
                0 <= i < old(stack)@.len() && 0 <= t < self.kids(node as int).len() ==> old(
                    stack,
                )@[i] != self.kids(node as int)[t].1,
            forall|c: int|
                0 <= c < self.nodes@.len() ==> done.contains(c) || self.covered(old(stack)@, c)
                    || self.pending(node as int, 0, c),
        ensures
            self.stack_ok(done, final(stack)@),
            self.frontier_ok(done, final(stack)@),
    {
        let ghost nd = node as int;
        let ghost n = self.nodes@.len();
        let children = &self.nodes[node].children;
        proof {
            assert forall|i: int, t: int|
                #![trigger stack@[i], children@[t]]
                0 <= i < stack@.len() && 0 <= t < children@.len() implies stack@[i]
                != children@[t].1 by {
                assert(children@[t] == self.kids(nd)[t]);
            }
            assert forall|t: int| 0 <= t < children@.len() implies !done.contains(
                #[trigger] children@[t].1 as int,
            ) by {
                assert(children@[t] == self.kids(nd)[t]);
            }
        }
        let mut j: usize = 0;
        while j < children.len()
            invariant
                self.wf(),
                n == self.nodes@.len(),
                0 <= nd < n,
                children@ == self.kids(nd),
                j <= children@.len(),
                done.contains(nd),
                self.done_ok(done),
                forall|t: int| 0 <= t < children@.len() ==> !done.contains(#[trigger] children@[t].1 as int),
                self.stack_ok(done, stack@),
                forall|i: int, t: int|
                    #![trigger stack@[i], children@[t]]
                    0 <= i < stack@.len() && j <= t < children@.len() ==> stack@[i]
                        != children@[t].1,
                forall|c: int|
                    0 <= c < n ==> done.contains(c) || self.covered(stack@, c) || self.pending(
                        nd,
                        j as int,
                        c,
                    ),
            decreases children.len() - j,
        {
            let ch = children[j].1;
            proof {
                assert(self.kids(nd)[j as int].1 == ch);
                self.lemma_push_child(nd, j as int);
            }
            let ghost before_push = stack@;
            stack.push(ch);
            proof {
                assert forall|i: int| 0 <= i < stack@.len() implies {
                    let s = #[trigger] stack@[i] as int;
                    &&& 0 <= s < n
                    &&& !done.contains(s)
                    &&& (s > 0 ==> done.contains(self.path(s).last()))
                } by {
                    if i < before_push.len() {
                        assert(stack@[i] == before_push[i]);
                    } else {
                        assert(stack@[i] == ch);
                    }
                }
                assert forall|i: int, t: int|
                    0 <= i < stack@.len() && 0 <= t < stack@.len() && i != t implies stack@[i]
                    != stack@[t] by {
                    if i < before_push.len() && t < before_push.len() {
                        assert(stack@[i] == before_push[i]);
                        assert(stack@[t] == before_push[t]);
                    } else if i < before_push.len() {
                        assert(stack@[i] == before_push[i]);
                        assert(before_push[i] != children@[j as int].1);
                    } else if t < before_push.len() {
                        assert(stack@[t] == before_push[t]);
                        assert(before_push[t] != children@[j as int].1);
                    }
                }
                assert forall|i: int, t: int|
                    #![trigger stack@[i], children@[t]]
                    0 <= i < stack@.len() && j + 1 <= t < children@.len() implies stack@[i]
                    != children@[t].1 by {
                    if i < before_push.len() {
                        assert(stack@[i] == before_push[i]);
                    } else {
                        assert(self.kids(nd)[t].1 != self.kids(nd)[j as int].1) by {
                            let c1 = self.kids(nd)[t].1 as int;
                            assert(self.kids(nd)[t].0 == damerau(self.word(nd), self.word(c1)));
                            assert(self.kids(nd)[j as int].0 != self.kids(nd)[t].0);
                        }
                    }
                }
                assert forall|c: int| 0 <= c < n implies done.contains(c) || self.covered(stack@, c)
                    || self.pending(nd, j + 1, c) by {
                    if self.covered(before_push, c) {
                        let i = choose|i: int|
                            0 <= i < before_push.len() && self.anc_or_self(before_push[i] as int, c);
                        assert(stack@[i] == before_push[i]);
                    } else if !done.contains(c) {
                        self.lemma_pending_step(nd, j as int, c);
                        if !self.pending(nd, j + 1, c) {
                            assert(stack@[before_push.len() as int] == ch);
                        }
                    }
                }
            }
            j += 1;
        }
        proof {
            assert forall|c: int| 0 <= c < n implies done.contains(c) || self.covered(stack@, c) by {
                if self.pending(nd, j as int, c) {
                    let t = choose|t: int|
                        j <= t < self.kids(nd).len() && self.kids(nd)[t].1 == self.next_on_path(
                            c,
                            self.path(nd).len() as int,
                        );
                }
            }
        }
    }

    /// Popping the top of the stack and marking it handled keeps the search
    /// invariants, with the children of the popped node still to be considered.
    proof fn lemma_pop(&self, done: Set<int>, stack: Seq<usize>)
        requires
            self.wf(),
            stack.len() > 0,
            self.done_ok(done),
            self.stack_ok(done, stack),
            self.frontier_ok(done, stack),
        ensures
            ({
                let nd = stack.last() as int;
                let now = done.insert(nd);
                let rest = stack.drop_last();
                &&& 0 <= nd < self.nodes@.len()
                &&& !done.contains(nd)
                &&& self.done_ok(now)
                &&& self.stack_ok(now, rest)
                &&& forall|t: int|
                    0 <= t < self.kids(nd).len() ==> !now.contains(
                        #[trigger] self.kids(nd)[t].1 as int,
                    )
                &&& forall|i: int, t: int|
                    #![trigger rest[i], self.kids(nd)[t]]
                    0 <= i < rest.len() && 0 <= t < self.kids(nd).len() ==> rest[i]
                        != self.kids(nd)[t].1
                &&& forall|c: int|
                    0 <= c < self.nodes@.len() ==> now.contains(c)
                        || self.covered(rest, c) || self.pending(nd, 0, c)
            }),
    {
        let n = self.nodes@.len();
        let nd = stack.last() as int;
        let now = done.insert(nd);
        let rest = stack.drop_last();
        assert(stack[stack.len() - 1] as int == nd);
        assert forall|c: int| #[trigger] now.contains(c) implies 0 <= c < n
            && (c > 0 ==> now.contains(self.path(c).last())) by {
            if c != nd {
                assert(done.contains(c));
            }
        }
        assert forall|i: int| 0 <= i < rest.len() implies {
            let s = #[trigger] rest[i] as int;
            &&& 0 <= s < n
            &&& !now.contains(s)
            &&& (s > 0 ==> now.contains(self.path(s).last()))
        } by {
            assert(rest[i] == stack[i]);
            assert(stack[i] != stack[stack.len() - 1]);
        }
        assert forall|i: int, j: int|
            0 <= i < rest.len() && 0 <= j < rest.len() && i != j implies rest[i] != rest[j] by {
            assert(rest[i] == stack[i]);
            assert(rest[j] == stack[j]);
        }
        assert forall|t: int| 0 <= t < self.kids(nd).len() implies !now.contains(
            #[trigger] self.kids(nd)[t].1 as int,
        ) by {
            let ch = self.kids(nd)[t].1 as int;
            assert(self.path(ch) == self.path(nd).push(nd));
            if done.contains(ch) {
                assert(done.contains(nd));
            }
        }
        assert forall|i: int, t: int|
            #![trigger rest[i], self.kids(nd)[t]]
            0 <= i < rest.len() && 0 <= t < self.kids(nd).len() implies rest[i]
            != self.kids(nd)[t].1 by {
            let ch = self.kids(nd)[t].1 as int;
            assert(self.path(ch) == self.path(nd).push(nd));
            assert(rest[i] == stack[i]);
        }
        assert forall|c: int| 0 <= c < n implies now.contains(c)
            || self.covered(rest, c) || self.pending(nd, 0, c) by {
            if !done.contains(c) {
                let i = choose|i: int| 0 <= i < stack.len() && self.anc_or_self(stack[i] as int, c);
                if i < stack.len() - 1 {
                    assert(rest[i] == stack[i]);
                } else if c != nd {
                    let kn = self.lemma_ancestor_position(nd, c);
                    let t = self.lemma_next_is_child(c, kn);
                }
            }
        }
    }

    /// The words within `m` of `q`, found by visiting every node, sorted by
    /// distance.
    fn search(&self, query: &str, max_dist: usize) -> (out: Vec<(String, usize)>)
        requires
            self.wf(),
            query@.len() < usize::MAX,
        ensures
            forall|i: int, j: int| 0 <= i <= j < out@.len() ==> out@[i].1 <= out@[j].1,
            forall|i: int, j: int|
                0 <= i < out@.len() && 0 <= j < out@.len() && i != j ==> out@[i].0@ != out@[j].0@,
            forall|i: int|
                0 <= i < out@.len() ==> self.words().contains((#[trigger] out@[i]).0@) && out@[i].1
                    == damerau(query@, out@[i].0@) && out@[i].1 <= max_dist,
            forall|c: int|
                0 <= c < self.nodes@.len() && damerau(query@, self.word(c)) <= max_dist ==> exists|
                    i: int,
                |
                    0 <= i < out@.len() && (#[trigger] out@[i]).0@ == self.word(c),
    {
        let mut out: Vec<(String, usize)> = Vec::new();
        let n = self.nodes.len();
        let ghost q = query@;
        let ghost m = max_dist as int;
        let ghost mut done: Set<int> = Set::empty();
        if n == 0 {
            return out;
        }
        let mut stack: Vec<usize> = Vec::new();
        stack.push(0);
        proof {
            assert forall|c: int| 0 <= c < n implies done.contains(c) || self.covered(stack@, c) by {
                if c > 0 {
                    assert(self.path(c).len() > 0 && self.path(c)[0] == 0);
                    assert(self.path(c).contains(0));
                }
                assert(self.anc_or_self(stack@[0] as int, c));
            }
            assert(self.path(0).len() == 0);
        }
        while stack.len() > 0
            invariant
                self.wf(),
                n == self.nodes@.len(),
                n > 0,
                q == query@,
                m == max_dist,
                q.len() < usize::MAX,
                done.finite(),
                done.subset_of(vstd::set_lib::set_int_range(0, n as int)),
                self.done_ok(done),
                self.stack_ok(done, stack@),
                self.frontier_ok(done, stack@),
                self.out_ok(q, m, done, out@),
            decreases n - done.len(),
        {
            let ghost old_stack = stack@;
            let node = stack.pop().unwrap();
            let ghost nd = node as int;
            let ghost old_done = done;
            proof {
                assert(old_stack[old_stack.len() - 1] == node);
                assert(stack@ == old_stack.drop_last());
                assert(self.word(nd).len() <= isize::MAX);
            }
            let d = damerau_levenshtein(query, self.nodes[node].word.as_str());
            self.record(&mut out, node, d, max_dist, Ghost(q), Ghost(done));
            proof {
                self.lemma_pop(old_done, old_stack);
                done = done.insert(nd);
            }
            self.push_children(&mut stack, node, Ghost(done));
            proof {
                vstd::set_lib::lemma_int_range(0, n as int);
                assert(done.subset_of(vstd::set_lib::set_int_range(0, n as int)));
                vstd::set_lib::lemma_len_subset(done, vstd::set_lib::set_int_range(0, n as int));
            }
        }
        proof {
            assert forall|c: int| 0 <= c < n implies #[trigger] done.contains(c) by {
                if !done.contains(c) {
                    assert(self.covered(stack@, c));
                }
            }
            assert forall|i: int| 0 <= i < out@.len() implies self.words().contains(
                (#[trigger] out@[i]).0@,
            ) && out@[i].1 == damerau(query@, out@[i].0@) && out@[i].1 <= max_dist by {
                let c = choose|c: int|
                    done.contains(c) && self.word(c) == (#[trigger] out@[i]).0@ && out@[i].1
                        == damerau(q, self.word(c)) && out@[i].1 <= m;
                assert(done.contains(c));
                assert(0 <= c < self.nodes@.len());
                assert(self.words()[c] == self.word(c));
            }
            assert forall|c: int|
                0 <= c < self.nodes@.len() && damerau(query@, self.word(c)) <= max_dist implies exists|
                i: int,
            |
                0 <= i < out@.len() && (#[trigger] out@[i]).0@ == self.word(c) by {
                assert(done.contains(c));
            }
        }
        out
    }
}

/// The distinct words of `ws`, each where it first occurs.
pub open spec fn first_occurrences(ws: Seq<Seq<char>>) -> Seq<Seq<char>>
    decreases ws.len(),
{
    if ws.len() == 0 {
        Seq::empty()
    } else {
        let p = first_occurrences(ws.drop_last());
        if p.contains(ws.last()) {
            p
        } else {
            p.push(ws.last())
        }
    }
}

impl BKTree {
    /// The words of the tree, in insertion order.
    pub closed spec fn words(&self) -> Seq<Seq<char>> {
        self.arena.words()
    }

    /// Number of insertions made (duplicates included).
    pub closed spec fn count(&self) -> usize {
        self.size
    }

    /// The tree is well formed (see the module documentation).
    pub closed spec fn wf(&self) -> bool {
        self.arena.wf()
    }

    /// `r` is a valid answer to `find(q, m)`: every word of the tree within
    /// `m` of `q`, each once with its distance, and nothing else, sorted by
    /// distance.
    pub open spec fn find_ok(&self, q: Seq<char>, m: int, r: Seq<(Seq<char>, usize)>) -> bool {
        &&& forall|i: int, j: int| 0 <= i <= j < r.len() ==> r[i].1 <= r[j].1
        &&& forall|i: int, j: int| 0 <= i < r.len() && 0 <= j < r.len() && i != j ==> r[i].0 != r[j].0
        &&& forall|i: int|
            0 <= i < r.len() ==> self.words().contains((#[trigger] r[i]).0) && r[i].1 == damerau(
                q,
                r[i].0,
            ) && r[i].1 <= m
        &&& forall|w: Seq<char>|
            self.words().contains(w) && damerau(q, w) <= m ==> exists|i: int|
                0 <= i < r.len() && (#[trigger] r[i]).0 == w
    }

    /// `w` is a word of the tree at a distance from `q` of at least 1 and at
    /// most `m`.
    pub open spec fn is_candidate(&self, q: Seq<char>, m: int, w: Seq<char>) -> bool {
        &&& self.words().contains(w)
        &&& 0 < damerau(q, w) <= m
    }

    /// `r` is a valid answer to `suggest(q, m, k)`: at most `k` candidates, sorted
    /// by distance, each listed once with its distance, and no candidate left
    /// out unless `k` were taken, all of them at most as far from `q`.
    pub open spec fn suggestions_ok(&self, q: Seq<char>, m: int, k: int, r: Seq<(Seq<char>, usize)>) -> bool {
        &&& r.len() <= k
        &&& forall|i: int| 0 <= i < r.len() ==> self.is_candidate(q, m, (#[trigger] r[i]).0)
            && r[i].1 == damerau(q, r[i].0)
        &&& forall|i: int, j: int| 0 <= i <= j < r.len() ==> r[i].1 <= r[j].1
        &&& forall|i: int, j: int| 0 <= i < r.len() && 0 <= j < r.len() && i != j ==> r[i].0 != r[j].0
        &&& forall|w: Seq<char>|
            self.is_candidate(q, m, w) && !(exists|i: int| 0 <= i < r.len() && (#[trigger] r[i]).0 == w)
                ==> r.len() == k && forall|i: int| 0 <= i < r.len() ==> (#[trigger] r[i]).1 <= damerau(q, w)
    }

    /// An empty tree.
    pub fn new() -> (r: Self)
        ensures
            r.wf(),
            r.words() == Seq::<Seq<char>>::empty(),
            r.count() == 0,
    {
        let r = BKTree { arena: BKArena { nodes: Vec::new() }, size: 0 };
        assert(r.words() =~= Seq::<Seq<char>>::empty());
        r
    }

    /// Build a tree from a list of words, inserted in order.
    pub fn from_words(words: &[String]) -> (r: Self)
        requires
            forall|i: int| 0 <= i < words@.len() ==> (#[trigger] words@[i])@.len() <= isize::MAX,
        ensures
            r.wf(),
            r.count() == words@.len(),
            r.words() == first_occurrences(views(words@)),
    {
        let mut tree = Self::new();
        let mut i: usize = 0;
        while i < words.len()
            invariant
                i <= words@.len(),
                tree.wf(),
                tree.count() == i,
                tree.words() == first_occurrences(views(words@).take(i as int)),
                forall|k: int| 0 <= k < words@.len() ==> (#[trigger] words@[k])@.len() <= isize::MAX,
            decreases words.len() - i,
        {
            proof {
                assert(views(words@).take(i + 1).drop_last() =~= views(words@).take(i as int));
                assert(views(words@).take(i + 1).last() == words@[i as int]@);
            }
            tree.insert(words[i].clone());
            i += 1;
        }
        assert(views(words@).take(words@.len() as int) =~= views(words@));
        tree
    }

    /// Insert a word into the tree.  The insertion count always grows; the
    /// word becomes a new leaf unless it is already in the tree.
    pub fn insert(&mut self, word: String)
        requires
            old(self).wf(),
            word@.len() <= isize::MAX,
            old(self).count() < usize::MAX,
        ensures
            final(self).wf(),
            final(self).count() == old(self).count() + 1,
            final(self).words() == if old(self).words().contains(word@) {
                old(self).words()
            } else {
                old(self).words().push(word@)
            },
    {
        self.size = self.size + 1;
        self.arena.insert_word(word);
    }

    /// All words within `max_dist` edits of `query`, with their distances,
    /// sorted by distance.
    pub fn find(&self, query: &str, max_dist: usize) -> (r: Vec<(String, usize)>)
        requires
            self.wf(),
            query@.len() < usize::MAX,
        ensures
            self.find_ok(query@, max_dist as int, match_views(r@)),
    {
        let r = self.arena.search(query, max_dist);
        proof {
            let ar = self.arena;
            let rv = match_views(r@);
            assert forall|i: int| 0 <= i < rv.len() implies self.words().contains((#[trigger] rv[i]).0)
                && rv[i].1 == damerau(query@, rv[i].0) && rv[i].1 <= max_dist by {
                assert(rv[i] == (r@[i].0@, r@[i].1));
            }
            assert forall|i: int, j: int| 0 <= i < rv.len() && 0 <= j < rv.len() && i != j implies rv[i].0
                != rv[j].0 by {
                assert(rv[i].0 == r@[i].0@);
                assert(rv[j].0 == r@[j].0@);
            }
            assert forall|i: int, j: int| 0 <= i <= j < rv.len() implies rv[i].1 <= rv[j].1 by {
                assert(rv[i].1 == r@[i].1);
                assert(rv[j].1 == r@[j].1);
            }
            assert forall|w: Seq<char>|
                self.words().contains(w) && damerau(query@, w) <= max_dist implies exists|i: int|
                0 <= i < rv.len() && (#[trigger] rv[i]).0 == w by {
                let c = choose|c: int| 0 <= c < ar.words().len() && ar.words()[c] == w;
                assert(ar.word(c) == w);
                let i = choose|i: int| 0 <= i < r@.len() && (#[trigger] r@[i]).0@ == ar.word(c);
                assert(rv[i].0 == w);
            }
        }
        r
    }

    /// Spelling suggestions for `query`: the nearest words within `max_dist`
    /// other than `query` itself, at most `max_suggestions` of them.
    pub fn suggest(&self, query: &str, max_dist: usize, max_suggestions: usize) -> (r: Vec<Suggestion>)
        requires
            self.wf(),
            query@.len() < usize::MAX,
        ensures
            self.suggestions_ok(query@, max_dist as int, max_suggestions as int, suggestion_views(r@)),
    {
        let matches = self.find(query, max_dist);
        let ghost q = query@;
        let ghost m = max_dist as int;
        proof {
            let mv = match_views(matches@);
            assert forall|j: int| 0 <= j < matches@.len() implies (#[trigger] matches@[j]).1 == damerau(
                q,
                matches@[j].0@,
            ) && self.words().contains(matches@[j].0@) && matches@[j].1 <= m by {
                assert(mv[j] == (matches@[j].0@, matches@[j].1));
            }
            assert forall|j: int, l: int| 0 <= j <= l < matches@.len() implies matches@[j].1 <= matches@[l].1 by {
                assert(mv[j].1 == matches@[j].1);
                assert(mv[l].1 == matches@[l].1);
            }
            assert forall|j: int, l: int| 0 <= j < matches@.len() && 0 <= l < matches@.len() && j != l
                implies matches@[j].0@ != matches@[l].0@ by {
                assert(mv[j].0 == matches@[j].0@);
                assert(mv[l].0 == matches@[l].0@);
            }
            assert forall|w: Seq<char>| self.words().contains(w) && damerau(q, w) <= m implies exists|j: int|
                0 <= j < matches@.len() && (#[trigger] matches@[j]).0@ == w by {
                let j = choose|j: int| 0 <= j < mv.len() && (#[trigger] mv[j]).0 == w;
                assert(matches@[j].0@ == mv[j].0);
            }
        }
        let mut out: Vec<Suggestion> = Vec::new();
        let ghost mut from: Seq<int> = Seq::empty();
        let mut i: usize = 0;
        while i < matches.len() && out.len() < max_suggestions
            invariant
                q == query@,
                forall|j: int|
                    0 <= j < matches@.len() ==> (#[trigger] matches@[j]).1 == damerau(q, matches@[j].0@),
                i <= matches@.len(),
                out@.len() <= max_suggestions,
                from.len() == out@.len(),
                forall|k: int| 0 <= k < from.len() ==> 0 <= #[trigger] from[k] < i,
                forall|k: int, l: int| 0 <= k < l < from.len() ==> from[k] < from[l],
                forall|k: int|
                    0 <= k < out@.len() ==> (#[trigger] out@[k]).word@ == matches@[from[k]].0@
                        && out@[k].distance == matches@[from[k]].1 && matches@[from[k]].1 > 0,
                forall|j: int|
                    0 <= j < i && matches@[j].1 > 0 ==> exists|k: int|
                        0 <= k < out@.len() && (#[trigger] out@[k]).word@ == matches@[j].0@,
            decreases matches.len() - i,
        {
            let entry = &matches[i];
            let ghost old_out = out@;
            if entry.1 > 0 && !str_eq(entry.0.as_str(), query) {
                out.push(Suggestion { word: entry.0.clone(), distance: entry.1 });
                proof {
                    from = from.push(i as int);
                    assert forall|j: int|
                        0 <= j < i + 1 && matches@[j].1 > 0 implies exists|k: int|
                            0 <= k < out@.len() && (#[trigger] out@[k]).word@ == matches@[j].0@ by {
                        if j < i {
                            let k = choose|k: int|
                                0 <= k < old_out.len() && (#[trigger] old_out[k]).word@ == matches@[j].0@;
                            assert(out@[k] == old_out[k]);
                        } else {
                            assert(out@[out@.len() - 1].word@ == matches@[j].0@);
                        }
                    }
                }
            } else {
                proof {
                    if entry.1 > 0 {
                        lemma_damerau_zero_iff_equal(q, entry.0@);
                    }
                }
            }
            i += 1;
        }
        proof {
            let rv = suggestion_views(out@);
            assert forall|k: int| 0 <= k < rv.len() implies self.is_candidate(q, m, (#[trigger] rv[k]).0)
                && rv[k].1 == damerau(q, rv[k].0) by {
                assert(rv[k].0 == out@[k].word@);
                assert(matches@[from[k]].0@ == out@[k].word@);
            }
            assert forall|a: int, b: int| 0 <= a <= b < rv.len() implies rv[a].1 <= rv[b].1 by {
                assert(out@[a].distance == matches@[from[a]].1);
                assert(out@[b].distance == matches@[from[b]].1);
                assert(from[a] <= from[b]);
            }
            assert forall|a: int, b: int| 0 <= a < rv.len() && 0 <= b < rv.len() && a != b
                implies rv[a].0 != rv[b].0 by {
                assert(out@[a].word@ == matches@[from[a]].0@);
                assert(out@[b].word@ == matches@[from[b]].0@);
                if a < b {
                    assert(from[a] < from[b]);
                } else {
                    assert(from[b] < from[a]);
                }
            }
            assert forall|w: Seq<char>|
                self.is_candidate(q, m, w) && !(exists|k: int| 0 <= k < rv.len() && (#[trigger] rv[k]).0 == w)
                implies rv.len() == max_suggestions && forall|k: int| 0 <= k < rv.len() ==> (#[trigger] rv[k]).1 <= damerau(q, w) by {
                let j = choose|j: int| 0 <= j < matches@.len() && (#[trigger] matches@[j]).0@ == w;
                if j < i {
                    let k = choose|k: int| 0 <= k < out@.len() && (#[trigger] out@[k]).word@ == matches@[j].0@;
                    assert(rv[k].0 == w);
                }
                assert forall|k: int| 0 <= k < rv.len() implies (#[trigger] rv[k]).1 <= damerau(q, w) by {
                    assert(rv[k].1 == matches@[from[k]].1);
                    assert(from[k] < j);
                }
            }
        }
        out
    }

    /// Number of insertions made.
    pub fn size(&self) -> (r: usize)
        ensures
            r == self.count(),
    {
        self.size
    }

    /// A search for a stored word with no tolerance answers that word alone,
    /// once, at distance 0: after `insert(w)`, `find(w, 0)` is `[(w, 0)]`.
    pub proof fn lemma_stored_word_found(&self, w: Seq<char>, r: Seq<(Seq<char>, usize)>)
        requires
            self.words().contains(w),
            self.find_ok(w, 0, r),
        ensures
            r == seq![(w, 0usize)],
    {
        lemma_damerau_zero_iff_equal(w, w);
        let i = choose|i: int| 0 <= i < r.len() && (#[trigger] r[i]).0 == w;
        assert forall|j: int| 0 <= j < r.len() implies (#[trigger] r[j]) == (w, 0usize) by {
            lemma_damerau_zero_iff_equal(w, r[j].0);
        }
        if r.len() > 1 {
            let j = if i == 0 { 1int } else { 0int };
            assert(r[j] == (w, 0usize));
            assert(r[i] == (w, 0usize));
        }
        assert(r =~= seq![(w, 0usize)]);
    }
}

/// A spelling suggestion: a word and its edit distance from the query.
#[derive(Debug, Clone)]
pub struct Suggestion {
    pub word: String,
    pub distance: usize,
}

/// Matches of a search as (word, distance) pairs.
pub open spec fn match_views(s: Seq<(String, usize)>) -> Seq<(Seq<char>, usize)> {
    s.map_values(|x: (String, usize)| (x.0@, x.1))
}

/// The suggestions as (word, distance) pairs.
pub open spec fn suggestion_views(s: Seq<Suggestion>) -> Seq<(Seq<char>, usize)> {
    s.map_values(|x: Suggestion| (x.word@, x.distance))
}

impl Suggestion {
    /// The suggestion as text: `word (edit distance: n)`.
    pub fn to_string(&self) -> (r: String)
        ensures
            r@ == self.word@ + " (edit distance: "@ + decimal(self.distance as nat) + ")"@,
    {
        let mut r = self.word.clone();
        push_all(&mut r, " (edit distance: ");
        let n = usize_to_decimal(self.distance);
        push_all(&mut r, n.as_str());
        push_all(&mut r, ")");
        r
    }
}

/// A corrected query: the query as typed and its corrected form.
#[derive(Debug)]
pub struct CorrectedQuery {
    pub original: String,
    pub corrected: String,
}

impl CorrectedQuery {
    /// The correction as text: `Did you mean: "..."?`.
    pub fn to_string(&self) -> (r: String)
        ensures
            r@ == "Did you mean: \""@ + self.corrected@ + "\"?"@,
    {
        let mut r = String::new();
        push_all(&mut r, "Did you mean: \"");
        push_all(&mut r, self.corrected.as_str());
        push_all(&mut r, "\"?");
        assert(r@ =~= "Did you mean: \""@ + self.corrected@ + "\"?"@);
        r
    }
}

/// The form under which a query word is looked up: lowercased, then stemmed.
pub open spec fn lookup_form(w: Seq<char>) -> Seq<char> {
    spec_stem(str_lowercase(w))
}

/// The words of a query that are considered for correction: the
/// whitespace-separated words longer than one byte.
pub open spec fn query_words(q: Seq<char>) -> Seq<Seq<char>> {
    longer_than_one_byte(split_ws(q))
}

/// The words of `ws` longer than one byte, in order.
pub open spec fn longer_than_one_byte(ws: Seq<Seq<char>>) -> Seq<Seq<char>>
    decreases ws.len(),
{
    if ws.len() == 0 {
        Seq::empty()
    } else if byte_len(ws.last()) > 1 {
        longer_than_one_byte(ws.drop_last()).push(ws.last())
    } else {
        longer_than_one_byte(ws.drop_last())
    }
}

/// Spelling corrector: a BK-tree over a vocabulary, correcting queries word by word.
pub struct SpellCorrector {
    tree: BKTree,
}

impl SpellCorrector {
    /// The tree over the vocabulary.
    pub closed spec fn tree(&self) -> BKTree {
        self.tree
    }

    /// The query word `p` has no exact match in the vocabulary and has a
    /// suggestion within two edits.
    pub open spec fn needs_correction(&self, p: Seq<char>) -> bool {
        let s = lookup_form(p);
        &&& s.len() < usize::MAX
        &&& !self.tree().words().contains(s)
        &&& exists|w: Seq<char>| self.tree().is_candidate(s, 2, w)
    }

    /// `c` is what the corrected query shows for the query word `p`: `p` itself
    /// unless it needs correction, else one of the nearest suggestions.
    pub open spec fn corrects(&self, p: Seq<char>, c: Seq<char>) -> bool {
        let s = lookup_form(p);
        if self.needs_correction(p) {
            &&& self.tree().is_candidate(s, 2, c)
            &&& forall|w: Seq<char>| self.tree().is_candidate(s, 2, w) ==> damerau(s, c) <= damerau(s, w)
        } else {
            c == p
        }
    }

    /// `cs` shows the words `ws` corrected, and `any` tells whether one of them
    /// needed correction.
    pub open spec fn corrections_ok(&self, ws: Seq<Seq<char>>, cs: Seq<Seq<char>>, any: bool) -> bool {
        &&& cs.len() == ws.len()
        &&& forall|i: int| 0 <= i < ws.len() ==> self.corrects(#[trigger] ws[i], cs[i])
        &&& any == exists|i: int| 0 <= i < ws.len() && self.needs_correction(#[trigger] ws[i])
    }

    proof fn lemma_corrections_push(
        &self,
        ws: Seq<Seq<char>>,
        cs: Seq<Seq<char>>,
        any: bool,
        w: Seq<char>,
        c: Seq<char>,
        changed: bool,
    )
        requires
            self.corrections_ok(ws, cs, any),
            self.corrects(w, c),
            changed == self.needs_correction(w),
        ensures
            self.corrections_ok(ws.push(w), cs.push(c), any || changed),
    {
        let ws2 = ws.push(w);
        let cs2 = cs.push(c);
        assert forall|i: int| 0 <= i < ws2.len() implies self.corrects(#[trigger] ws2[i], cs2[i]) by {
            if i < ws.len() {
                assert(ws2[i] == ws[i] && cs2[i] == cs[i]);
            }
        }
        if any {
            let k = choose|k: int| 0 <= k < ws.len() && self.needs_correction(#[trigger] ws[k]);
            assert(ws2[k] == ws[k]);
        }
        if changed {
            assert(ws2[ws.len() as int] == w);
        }
        if !(any || changed) {
            assert forall|k: int| 0 <= k < ws2.len() implies !self.needs_correction(#[trigger] ws2[k]) by {
                if k < ws.len() {
                    assert(ws2[k] == ws[k]);
                }
            }
        }
    }

    /// A corrector over `vocabulary`.
    pub fn new(vocabulary: &[String]) -> (r: Self)
        requires
            forall|i: int| 0 <= i < vocabulary@.len() ==> (#[trigger] vocabulary@[i])@.len() <= isize::MAX,
        ensures
            r.tree().wf(),
            r.tree().words() == first_occurrences(views(vocabulary@)),
    {
        SpellCorrector { tree: BKTree::from_words(vocabulary) }
    }

    /// The correction shown for one query word, and whether it changed.
    #[verifier::spinoff_prover]
    #[verifier::rlimit(60)]
    fn correct_word(&self, word: &str) -> (r: (String, bool))
        requires
            self.tree().wf(),
        ensures
            self.corrects(word@, r.0@),
            r.1 == self.needs_correction(word@),
    {
        let lower = to_lowercase(word);
        let stemmed = stem(lower.as_str());
        let sc = chars_of(stemmed.as_str());
        if sc.len() == usize::MAX {
            return (word.to_owned(), false);
        }
        let exact = self.tree.find(stemmed.as_str(), 0);
        if exact.len() > 0 {
            proof {
                let x = exact@[0].0@;
                assert(match_views(exact@)[0] == (x, exact@[0].1));
                lemma_damerau_zero_iff_equal(stemmed@, x);
            }
            return (word.to_owned(), false);
        }
        let nearby = self.tree.suggest(stemmed.as_str(), 2, 1);
        let ghost s = stemmed@;
        if nearby.len() > 0 {
            proof {
                let rv = suggestion_views(nearby@);
                assert(rv[0].0 == nearby@[0].word@);
                if self.tree().words().contains(s) {
                    lemma_damerau_zero_iff_equal(s, s);
                    assert(exists|i: int| 0 <= i < match_views(exact@).len() && (#[trigger] match_views(exact@)[i]).0 == s);
                }
                assert forall|w: Seq<char>| self.tree().is_candidate(s, 2, w) implies damerau(
                    s,
                    nearby@[0].word@,
                ) <= damerau(s, w) by {
                    if w != rv[0].0 {
                        assert(!(exists|i: int| 0 <= i < rv.len() && (#[trigger] rv[i]).0 == w));
                    }
                }
            }
            (nearby[0].word.clone(), true)
        } else {
            proof {
                if self.tree().words().contains(s) {
                    lemma_damerau_zero_iff_equal(s, s);
                    assert(exists|i: int| 0 <= i < match_views(exact@).len() && (#[trigger] match_views(exact@)[i]).0 == s);
                }
                let rv = suggestion_views(nearby@);
                assert forall|w: Seq<char>| !self.tree().is_candidate(s, 2, w) by {
                    if self.tree().is_candidate(s, 2, w) {
                        assert(!(exists|i: int| 0 <= i < rv.len() && (#[trigger] rv[i]).0 == w));
                    }
                }
            }
            (word.to_owned(), false)
        }
    }

    /// Correct a full query: each word longer than one byte whose stemmed,
    /// lowercased form is not in the vocabulary is replaced by the nearest
    /// suggestion within two edits.  `None` when no word was replaced.
    #[verifier::rlimit(30)]
    pub fn correct_query(&self, query: &str) -> (r: Option<CorrectedQuery>)
        requires
            self.tree().wf(),
        ensures
            match r {
                None => forall|i: int|
                    0 <= i < query_words(query@).len() ==> !self.needs_correction(
                        #[trigger] query_words(query@)[i],
                    ),
                Some(cq) => {
                    let ws = query_words(query@);
                    &&& cq.original@ == query@
                    &&& exists|i: int| 0 <= i < ws.len() && self.needs_correction(#[trigger] ws[i])
                    &&& exists|cs: Seq<Seq<char>>|
                        cs.len() == ws.len() && (forall|i: int|
                            0 <= i < ws.len() ==> self.corrects(#[trigger] ws[i], cs[i]))
                            && cq.corrected@ == join_space(cs)
                },
            },
    {
        let pieces = split_whitespace(query);
        let ghost all = views(pieces@);
        let mut corrected: Vec<String> = Vec::new();
        let ghost mut kept: Seq<Seq<char>> = Seq::empty();
        let mut any = false;
        let mut i: usize = 0;
        proof {
            assert(all.take(0) =~= Seq::<Seq<char>>::empty());
            assert(views(corrected@) =~= Seq::<Seq<char>>::empty());
        }
        while i < pieces.len()
            invariant
                self.tree().wf(),
                i <= pieces@.len(),
                all == views(pieces@),
                kept == longer_than_one_byte(all.take(i as int)),
                self.corrections_ok(kept, views(corrected@), any),
            decreases pieces.len() - i,
        {
            let w = pieces[i].as_str();
            let wc = chars_of(w);
            proof {
                assert(all.take(i + 1).drop_last() =~= all.take(i as int));
                assert(all.take(i + 1).last() == w@);
            }
            if byte_len_exceeds(&wc, 1) {
                let (c, changed) = self.correct_word(w);
                let ghost prev_cs = views(corrected@);
                proof {
                    self.lemma_corrections_push(kept, prev_cs, any, w@, c@, changed);
                    kept = kept.push(w@);
                }
                corrected.push(c);
                any = any || changed;
                proof {
                    assert(views(corrected@) =~= prev_cs.push(corrected@.last()@));
                }
            }
            i += 1;
        }
        proof {
            assert(all.take(pieces@.len() as int) =~= all);
        }
        if any {
            let joined = join_with_space(&corrected);
            proof {
                let cs = views(corrected@);
                assert(kept == query_words(query@));
                assert(cs.len() == kept.len() && (forall|i: int|
                    0 <= i < kept.len() ==> self.corrects(#[trigger] kept[i], cs[i]))
                    && joined@ == join_space(cs));
            }
            Some(CorrectedQuery { original: query.to_owned(), corrected: joined })
        } else {
            None
        }
    }

    /// Suggestions for a single term, looked up lowercased and stemmed: at
    /// most five, within `max_dist` edits.
    pub fn suggest_term(&self, term: &str, max_dist: usize) -> (r: Vec<Suggestion>)
        requires
            self.tree().wf(),
        ensures
            lookup_form(term@).len() < usize::MAX ==> self.tree().suggestions_ok(
                lookup_form(term@),
                max_dist as int,
                5,
                suggestion_views(r@),
            ),
            lookup_form(term@).len() == usize::MAX ==> r@.len() == 0,
    {
        let lower = to_lowercase(term);
        let stemmed = stem(lower.as_str());
        let sc = chars_of(stemmed.as_str());
        if sc.len() == usize::MAX {
            return Vec::new();
        }
        self.tree.suggest(stemmed.as_str(), max_dist, 5)
    }
}

} // verus!
