//! A token-sequence trie: each node maps tokens to child nodes and carries a
//! terminal flag marking that a stored phrase ends there. The trie is viewed
//! abstractly as the set of stored token paths.

use vstd::prelude::*;
use crate::normalize::{split_ws_of, split_into_tokens};

verus! {

broadcast use
    vstd::std_specs::vec::axiom_vec_index_decreases,
    vstd::set::axiom_set_insert_finite,
    vstd::set::axiom_set_insert_len,
;

/// One trie node: children keyed by token (keys unique, order irrelevant),
/// plus the flag marking that a stored phrase ends exactly here.
pub struct TrieNode {
    children: Vec<(String, TrieNode)>,
    is_end_of_word: bool,
}

/// The trie owns a single root node and tracks how many distinct phrases are
/// stored under it.
pub struct Trie {
    root: TrieNode,
    stored: usize,
}

impl TrieNode {
    /// Some stored phrase's remaining token path ends under this node.
    pub closed spec fn contains_path(self, p: Seq<Seq<char>>) -> bool
        decreases p.len(),
    {
        if p.len() == 0 {
            self.is_end_of_word
        } else {
            exists|j: int|
                0 <= j < self.children@.len() && self.children@[j].0@ == p[0]
                    && self.children@[j].1.contains_path(p.skip(1))
        }
    }

    /// Child keys are distinct at this node and below: each token path from a
    /// node leads to at most one descendant.
    pub closed spec fn wf(self) -> bool
        decreases self,
    {
        &&& forall|i: int, j: int|
            0 <= i < j < self.children@.len() ==> self.children@[i].0@ != self.children@[j].0@
        &&& forall|i: int| #![trigger self.children@[i]]
            0 <= i < self.children@.len() ==> self.children@[i].1.wf()
    }
}

/// A node with no children and no terminal flag stores nothing.
proof fn lemma_fresh_node_contains_nothing(n: TrieNode)
    requires
        n.children@.len() == 0,
        !n.is_end_of_word,
    ensures
        forall|p: Seq<Seq<char>>| !n.contains_path(p),
        n.wf(),
{
    assert forall|p: Seq<Seq<char>>| !n.contains_path(p) by {
        if p.len() == 0 {
        }
    }
}

/// Two non-empty paths with the same head token and the same tail are the
/// same path.
proof fn lemma_eq_from_head_and_tail(a: Seq<Seq<char>>, b: Seq<Seq<char>>)
    requires
        a.len() > 0,
        b.len() > 0,
        a[0] == b[0],
        a.skip(1) == b.skip(1),
    ensures
        a == b,
{
    assert(a.skip(1).len() == a.len() - 1);
    assert(b.skip(1).len() == b.len() - 1);
    assert(a.len() == b.len());
    assert forall|m: int| 0 <= m < a.len() implies a[m] == b[m] by {
        if m >= 1 {
            assert(a.skip(1)[m - 1] == a[m]);
            assert(b.skip(1)[m - 1] == b[m]);
        }
    }
    assert(a =~= b);
}

/// Every child of a sound node is itself sound.
proof fn lemma_wf_child(n: TrieNode, i: int)
    requires
        n.wf(),
        0 <= i < n.children@.len(),
    ensures
        n.children@[i].1.wf(),
{
}

/// Find the child keyed by `tok`, if any.
fn child_find(node: &TrieNode, tok: &String) -> (r: Option<usize>)
    ensures
        match r {
            Some(j) => j < node.children@.len() && node.children@[j as int].0@ == tok@,
            None => forall|j: int| 0 <= j < node.children@.len() ==> node.children@[j].0@ != tok@,
        },
{
    let mut j: usize = 0;
    while j < node.children.len()
        invariant
            j <= node.children@.len(),
            forall|j2: int| 0 <= j2 < j ==> node.children@[j2].0@ != tok@,
        decreases node.children@.len() - j,
    {
        if node.children[j].0 == *tok {
            return Some(j);
        }
        j += 1;
    }
    None
}

/// Walk the path `toks[k..]` below `node`, creating any missing nodes, and
/// mark the final node terminal. Afterwards the node stores exactly what it
/// stored before plus that path; `added` says whether the path is new.
fn insert_at(node: &mut TrieNode, toks: &Vec<String>, k: usize) -> (added: bool)
    requires
        old(node).wf(),
        k <= toks@.len(),
    ensures
        final(node).wf(),
        added == !old(node).contains_path(toks.deep_view().skip(k as int)),
        forall|q: Seq<Seq<char>>|
            final(node).contains_path(q) <==> (old(node).contains_path(q) || q
                == toks.deep_view().skip(k as int)),
    decreases toks@.len() - k,
{
    let ghost path = toks.deep_view().skip(k as int);
    if k == toks.len() {
        let added = !node.is_end_of_word;
        node.is_end_of_word = true;
        proof {
            assert(path =~= Seq::<Seq<char>>::empty());
            assert forall|q: Seq<Seq<char>>|
                node.contains_path(q) <==> (old(node).contains_path(q) || q == path) by {
                if q.len() == 0 {
                    assert(q =~= path);
                }
            }
        }
        return added;
    }
    let ghost dv = toks.deep_view();
    proof {
        assert(path.len() > 0);
        assert(path[0] == dv[k as int]);
        assert(path.skip(1) =~= dv.skip(k as int + 1));
    }
    match child_find(node, &toks[k]) {
        Some(j) => {
            let ghost old_children = node.children@;
            let (key, mut child) = node.children.remove(j);
            let ghost old_child = child;
            proof {
                lemma_wf_child(*old(node), j as int);
            }
            let added = insert_at(&mut child, toks, k + 1);
            node.children.insert(j, (key, child));
            proof {
                let new_children = node.children@;
                assert(new_children =~= old_children.update(j as int, (key, child)));
                assert(key == old_children[j as int].0);
                assert(key@ == path[0]);
                // Only one child carries this key, so the walk's match is the
                // path's only way down.
                assert forall|q: Seq<Seq<char>>|
                    node.contains_path(q) <==> (old(node).contains_path(q) || q == path) by {
                    if q.len() == 0 {
                        assert(q != path);
                        assert(node.contains_path(q) == old(node).contains_path(q));
                    } else {
                        if node.contains_path(q) {
                            let j2 = choose|j2: int|
                                0 <= j2 < new_children.len() && new_children[j2].0@ == q[0]
                                    && new_children[j2].1.contains_path(q.skip(1));
                            if j2 == j {
                                if old_child.contains_path(q.skip(1)) {
                                    assert(old_children[j as int].0@ == q[0]
                                        && old_children[j as int].1.contains_path(q.skip(1)));
                                    assert(old(node).contains_path(q));
                                } else {
                                    assert(q.skip(1) =~= path.skip(1));
                                    lemma_eq_from_head_and_tail(q, path);
                                }
                            } else {
                                assert(old_children[j2].0@ == q[0]
                                    && old_children[j2].1.contains_path(q.skip(1)));
                                assert(old(node).contains_path(q));
                            }
                        }
                        if old(node).contains_path(q) {
                            let j2 = choose|j2: int|
                                0 <= j2 < old_children.len() && old_children[j2].0@ == q[0]
                                    && old_children[j2].1.contains_path(q.skip(1));
                            if j2 == j {
                                assert(child.contains_path(q.skip(1)));
                                assert(new_children[j as int].0@ == q[0]);
                                assert(node.contains_path(q));
                            } else {
                                assert(new_children[j2].0@ == q[0]
                                    && new_children[j2].1.contains_path(q.skip(1)));
                                assert(node.contains_path(q));
                            }
                        }
                        if q == path {
                            assert(child.contains_path(path.skip(1)));
                            assert(new_children[j as int].0@ == path[0]);
                            assert(node.contains_path(q));
                        }
                    }
                }
                // The walk's child is the only one keyed by the path's head.
                if old(node).contains_path(path) {
                    let j2 = choose|j2: int|
                        0 <= j2 < old_children.len() && old_children[j2].0@ == path[0]
                            && old_children[j2].1.contains_path(path.skip(1));
                    assert(j2 == j);
                    assert(old_child.contains_path(path.skip(1)));
                }
                if old_child.contains_path(path.skip(1)) {
                    assert(old(node).contains_path(path));
                }
                assert forall|i: int| 0 <= i < new_children.len() implies #[trigger] new_children[i].1.wf() by {
                    if i != j {
                        assert(new_children[i] == old_children[i]);
                        lemma_wf_child(*old(node), i);
                    }
                }
            }
            added
        },
        None => {
            let mut child = TrieNode { children: Vec::new(), is_end_of_word: false };
            proof {
                lemma_fresh_node_contains_nothing(child);
            }
            let added = insert_at(&mut child, toks, k + 1);
            let ghost old_children = node.children@;
            let key = toks[k].clone();
            node.children.push((key, child));
            proof {
                let new_children = node.children@;
                assert(new_children =~= old_children.push((key, child)));
                assert(added);
                // No old child carries the path's head, so the path was absent.
                if old(node).contains_path(path) {
                    let j2 = choose|j2: int|
                        0 <= j2 < old_children.len() && old_children[j2].0@ == path[0]
                            && old_children[j2].1.contains_path(path.skip(1));
                    assert(false);
                }
                assert forall|q: Seq<Seq<char>>|
                    node.contains_path(q) <==> (old(node).contains_path(q) || q == path) by {
                    if q.len() == 0 {
                        assert(q != path);
                    } else {
                        if node.contains_path(q) {
                            let j2 = choose|j2: int|
                                0 <= j2 < new_children.len() && new_children[j2].0@ == q[0]
                                    && new_children[j2].1.contains_path(q.skip(1));
                            if j2 < old_children.len() {
                                assert(old_children[j2].0@ == q[0]
                                    && old_children[j2].1.contains_path(q.skip(1)));
                                assert(old(node).contains_path(q));
                            } else {
                                assert(new_children[j2].1 == child);
                                assert(q.skip(1) =~= path.skip(1));
                                assert(q[0] == path[0]);
                                lemma_eq_from_head_and_tail(q, path);
                            }
                        }
                        if old(node).contains_path(q) {
                            let j2 = choose|j2: int|
                                0 <= j2 < old_children.len() && old_children[j2].0@ == q[0]
                                    && old_children[j2].1.contains_path(q.skip(1));
                            assert(new_children[j2].0@ == q[0]
                                && new_children[j2].1.contains_path(q.skip(1)));
                            assert(node.contains_path(q));
                        }
                        if q == path {
                            let j2 = old_children.len() as int;
                            assert(new_children[j2].0@ == path[0]
                                && new_children[j2].1.contains_path(path.skip(1)));
                            assert(node.contains_path(q));
                        }
                    }
                }
                assert forall|i: int| 0 <= i < new_children.len() implies #[trigger] new_children[i].1.wf() by {
                    if i < old_children.len() {
                        assert(new_children[i] == old_children[i]);
                        lemma_wf_child(*old(node), i);
                    }
                }
            }
            added
        },
    }
}

impl View for Trie {
    type V = Set<Seq<Seq<char>>>;

    /// The set of stored phrases, each a path of tokens from the root to a
    /// terminal node.
    closed spec fn view(&self) -> Set<Seq<Seq<char>>> {
        Set::new(|p: Seq<Seq<char>>| self.root.contains_path(p))
    }
}

impl Trie {
    /// The structure is sound: keys are unique everywhere, the empty phrase is
    /// never stored, and the stored counter matches the (finite) phrase set.
    pub closed spec fn wf(self) -> bool {
        &&& self.root.wf()
        &&& !self.root.is_end_of_word
        &&& self@.finite()
        &&& self.stored == self@.len()
    }

    /// A sound trie stores finitely many phrases, as many as its counter says,
    /// and never the empty phrase.
    pub proof fn lemma_wf_view(self)
        requires
            self.wf(),
        ensures
            self@.finite(),
            !self@.contains(Seq::<Seq<char>>::empty()),
    {
        assert(!self.root.contains_path(Seq::<Seq<char>>::empty()));
    }

    /// A freshly built trie stores nothing.
    pub fn new() -> (t: Trie)
        ensures
            t.wf(),
            t@ == Set::<Seq<Seq<char>>>::empty(),
    {
        let t = Trie { root: TrieNode { children: Vec::new(), is_end_of_word: false }, stored: 0 };
        proof {
            lemma_fresh_node_contains_nothing(t.root);
            assert(t@ =~= Set::<Seq<Seq<char>>>::empty());
        }
        t
    }

    /// Store a token path: walk from the root creating any missing child
    /// nodes, and mark the final node terminal. An empty path is never
    /// stored. Re-inserting a stored path changes nothing observable.
    pub fn insert_tokens(&mut self, toks: &Vec<String>)
        requires
            old(self).wf(),
            old(self)@.len() < usize::MAX,
        ensures
            final(self).wf(),
            final(self)@ == if toks.deep_view().len() == 0 {
                old(self)@
            } else {
                old(self)@.insert(toks.deep_view())
            },
    {
        if toks.len() == 0 {
            return ;
        }
        let ghost dv = toks.deep_view();
        proof {
            assert(dv.skip(0) =~= dv);
        }
        let added = insert_at(&mut self.root, toks, 0);
        proof {
            let empty_path = Seq::<Seq<char>>::empty();
            assert(!old(self).root.contains_path(empty_path));
            assert(empty_path != dv);
            assert(!self.root.contains_path(empty_path));
            assert(!self.root.is_end_of_word);
            assert(self@ =~= old(self)@.insert(dv));
            assert(dv.len() > 0);
            if added {
                assert(!old(self)@.contains(dv));
                assert(old(self)@.insert(dv).len() == old(self)@.len() + 1);
            } else {
                assert(old(self)@.contains(dv));
                assert(old(self)@.insert(dv) =~= old(self)@);
            }
        }
        if added {
            self.stored = self.stored + 1;
        }
    }

    /// Store a phrase given in canonical form: it is split into whitespace
    /// separated tokens and the token path is stored.
    pub fn insert(&mut self, phrase: &str)
        requires
            old(self).wf(),
            old(self)@.len() < usize::MAX,
        ensures
            final(self).wf(),
            final(self)@ == if split_ws_of(phrase@).len() == 0 {
                old(self)@
            } else {
                old(self)@.insert(split_ws_of(phrase@))
            },
    {
        let toks = split_into_tokens(phrase);
        self.insert_tokens(&toks);
    }

    /// Decide whether the token path `toks[start..start + len]` is stored:
    /// true iff the whole path exists and ends at a terminal node.
    pub fn search_window(&self, toks: &Vec<String>, start: usize, len: usize) -> (r: bool)
        requires
            self.wf(),
            start + len <= toks.len(),
        ensures
            r == self@.contains(toks.deep_view().subrange(start as int, start as int + len as int)),
    {
        let ghost w = toks.deep_view().subrange(start as int, start as int + len as int);
        let mut node: &TrieNode = &self.root;
        let mut k: usize = 0;
        proof {
            assert(w.skip(0) =~= w);
        }
        while k < len
            invariant
                k <= len,
                start + len <= toks.len(),
                w == toks.deep_view().subrange(start as int, start as int + len as int),
                node.wf(),
                self.root.contains_path(w) == node.contains_path(w.skip(k as int)),
            decreases len - k,
        {
            let ghost rest = w.skip(k as int);
            proof {
                assert(rest.len() > 0);
                assert(rest[0] == toks.deep_view()[start as int + k as int]);
                assert(rest.skip(1) =~= w.skip(k as int + 1));
            }
            match child_find(node, &toks[start + k]) {
                Some(j) => {
                    proof {
                        let children = node.children@;
                        if node.contains_path(rest) {
                            let j2 = choose|j2: int|
                                0 <= j2 < children.len() && children[j2].0@ == rest[0]
                                    && children[j2].1.contains_path(rest.skip(1));
                            assert(j2 == j as int);
                        }
                        if children[j as int].1.contains_path(rest.skip(1)) {
                            assert(node.contains_path(rest));
                        }
                        lemma_wf_child(*node, j as int);
                    }
                    node = &node.children[j].1;
                },
                None => {
                    proof {
                        assert(!node.contains_path(rest));
                    }
                    return false;
                },
            }
            k += 1;
        }
        proof {
            assert(w.skip(len as int) =~= Seq::<Seq<char>>::empty());
        }
        node.is_end_of_word
    }

    /// Decide whether a stored phrase's token path matches the whole of
    /// `toks`.
    pub fn search_tokens(&self, toks: &Vec<String>) -> (r: bool)
        requires
            self.wf(),
        ensures
            r == self@.contains(toks.deep_view()),
    {
        let r = self.search_window(toks, 0, toks.len());
        proof {
            assert(toks.deep_view().subrange(0, toks.deep_view().len() as int)
                =~= toks.deep_view());
        }
        r
    }

    /// Look a phrase up in canonical form: split it into tokens and walk that
    /// path; true iff the path fully exists and ends at a terminal node. The
    /// empty phrase is never stored, so the lookup of one returns false.
    pub fn search(&self, phrase: &str) -> (r: bool)
        requires
            self.wf(),
        ensures
            r == self@.contains(split_ws_of(phrase@)),
    {
        let toks = split_into_tokens(phrase);
        self.search_tokens(&toks)
    }

    /// The number of distinct stored phrases: one for each terminal node.
    pub fn count_words(&self) -> (n: usize)
        requires
            self.wf(),
        ensures
            n == self@.len(),
    {
        self.stored
    }
}

} // verus!
