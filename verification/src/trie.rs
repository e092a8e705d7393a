//! A trie keyed on Khmer Character Clusters. Edges are keyed on whole
//! clusters (not raw characters), which keeps every match aligned to
//! orthographic boundaries.

use vstd::prelude::*;
use crate::text::views;

verus! {

/// One labelled edge of the trie.
pub struct Edge {
    pub key: String,
    pub node: TrieNode,
}

/// One node of the cluster trie.
pub struct TrieNode {
    pub children: Vec<Edge>,
    pub is_word: bool,
}

/// The first edge at or after `k` labelled `key`, or `es.len()`.
pub open spec fn find_edge(es: Seq<Edge>, key: Seq<char>, k: int) -> int
    decreases es.len() - k,
{
    if k < 0 || k >= es.len() {
        es.len() as int
    } else if es[k].key@ == key {
        k
    } else {
        find_edge(es, key, k + 1)
    }
}

pub proof fn lemma_find_edge(es: Seq<Edge>, key: Seq<char>, k: int)
    requires
        0 <= k,
    ensures
        k <= es.len() ==> k <= find_edge(es, key, k) <= es.len(),
        find_edge(es, key, k) < es.len() ==> es[find_edge(es, key, k)].key@ == key,
        forall|j: int| k <= j < find_edge(es, key, k) ==> es[j].key@ != key,
    decreases es.len() - k,
{
    if k < es.len() && es[k].key@ != key {
        lemma_find_edge(es, key, k + 1);
    }
}

/// Extending the edge list leaves every earlier first match in place.
pub proof fn lemma_find_edge_push(es: Seq<Edge>, e: Edge, key: Seq<char>, k: int)
    requires
        0 <= k <= es.len(),
    ensures
        find_edge(es, key, k) < es.len() ==> find_edge(es.push(e), key, k) == find_edge(es, key, k),
        find_edge(es, key, k) == es.len() ==> find_edge(es.push(e), key, k) == (if e.key@ == key {
            es.len() as int
        } else {
            es.len() + 1int
        }),
    decreases es.len() - k,
{
    if k < es.len() {
        assert(es.push(e)[k] == es[k]);
        if es[k].key@ != key {
            lemma_find_edge_push(es, e, key, k + 1);
        }
    } else {
        assert(es.push(e)[k] == e);
        if e.key@ != key {
            assert(find_edge(es.push(e), key, k + 1) == es.len() + 1);
        }
    }
}

/// Replacing the node under one edge leaves every first match in place.
pub proof fn lemma_find_edge_update(es: Seq<Edge>, idx: int, e: Edge, key: Seq<char>, k: int)
    requires
        0 <= k,
        0 <= idx < es.len(),
        e.key@ == es[idx].key@,
    ensures
        find_edge(es.update(idx, e), key, k) == find_edge(es, key, k),
    decreases es.len() - k,
{
    if k < es.len() {
        if es[k].key@ != key {
            lemma_find_edge_update(es, idx, e, key, k + 1);
        }
    }
}

proof fn lemma_head_tail_eq(v: Seq<Seq<char>>, r: Seq<Seq<char>>)
    requires
        v.len() > 0,
        r.len() > 0,
        v[0] == r[0],
        v.drop_first() == r.drop_first(),
    ensures
        v == r,
{
    assert(v.drop_first().len() == v.len() - 1);
    assert(r.drop_first().len() == r.len() - 1);
    assert(v.len() == r.len());
    assert forall|i: int| 0 <= i < v.len() implies v[i] == r[i] by {
        if i > 0 {
            assert(v[i] == v.drop_first()[i - 1]);
            assert(r[i] == r.drop_first()[i - 1]);
        }
    }
    assert(v =~= r);
}

/// The child reached through the edge labelled `key`.
pub open spec fn child(n: TrieNode, key: Seq<char>) -> Option<TrieNode> {
    let k = find_edge(n.children@, key, 0);
    if 0 <= k < n.children@.len() {
        Some(n.children@[k].node)
    } else {
        None
    }
}

/// The node reached from `n` along the cluster path `w`, if any.
pub open spec fn node_at(n: TrieNode, w: Seq<Seq<char>>) -> Option<TrieNode>
    decreases w.len(),
{
    if w.len() == 0 {
        Some(n)
    } else {
        match child(n, w[0]) {
            Some(c) => node_at(c, w.drop_first()),
            None => None,
        }
    }
}

/// Whether the cluster sequence `w` is a word stored under `n`.
pub open spec fn has_word(n: TrieNode, w: Seq<Seq<char>>) -> bool {
    match node_at(n, w) {
        Some(m) => m.is_word,
        None => false,
    }
}

/// The set of words stored under `n`.
pub open spec fn dict_of(n: TrieNode) -> Set<Seq<Seq<char>>> {
    Set::new(|w: Seq<Seq<char>>| has_word(n, w))
}

/// Walking `a` then `b` is walking `a + b`.
pub proof fn lemma_node_at_append(n: TrieNode, a: Seq<Seq<char>>, b: Seq<Seq<char>>)
    ensures
        node_at(n, a + b) == (match node_at(n, a) {
            Some(m) => node_at(m, b),
            None => None,
        }),
    decreases a.len(),
{
    if a.len() == 0 {
        assert(a + b =~= b);
    } else {
        assert((a + b)[0] == a[0]);
        assert((a + b).drop_first() =~= a.drop_first() + b);
        match child(n, a[0]) {
            Some(c) => {
                lemma_node_at_append(c, a.drop_first(), b);
            },
            None => {},
        }
    }
}

/// One step further along a path.
pub proof fn lemma_node_at_push(n: TrieNode, a: Seq<Seq<char>>, c: Seq<char>)
    ensures
        node_at(n, a.push(c)) == (match node_at(n, a) {
            Some(m) => child(m, c),
            None => None,
        }),
{
    lemma_node_at_append(n, a, seq![c]);
    assert(a + seq![c] =~= a.push(c));
    match node_at(n, a) {
        Some(m) => {
            assert(seq![c].drop_first() =~= Seq::<Seq<char>>::empty());
            match child(m, c) {
                Some(x) => {
                    assert(node_at(x, Seq::<Seq<char>>::empty()) == Some(x));
                },
                None => {},
            }
        },
        None => {},
    }
}

/// A path that leaves the trie stays out of it, however it is extended.
pub proof fn lemma_node_at_dead(n: TrieNode, a: Seq<Seq<char>>, b: Seq<Seq<char>>)
    requires
        node_at(n, a) is None,
    ensures
        node_at(n, a + b) is None,
{
    lemma_node_at_append(n, a, b);
}

impl TrieNode {
    /// A node with no children that is not a word.
    pub fn new() -> (n: TrieNode)
        ensures
            n.children@.len() == 0,
            !n.is_word,
            forall|w: Seq<Seq<char>>| !has_word(n, w),
    {
        let n = TrieNode { children: Vec::new(), is_word: false };
        assert forall|w: Seq<Seq<char>>| !has_word(n, w) by {
            if w.len() > 0 {
                assert(find_edge(n.children@, w[0], 0) == 0);
            }
        }
        n
    }

    /// The index of the first edge labelled `key`.
    pub fn edge_index(&self, key: &String) -> (k: usize)
        ensures
            k == find_edge(self.children@, key@, 0),
            k <= self.children@.len(),
    {
        proof {
            lemma_find_edge(self.children@, key@, 0);
        }
        let mut k: usize = 0;
        while k < self.children.len()
            invariant
                k <= self.children@.len(),
                find_edge(self.children@, key@, 0) == find_edge(self.children@, key@, k as int),
            decreases self.children.len() - k,
        {
            if self.children[k].key == *key {
                return k;
            }
            k = k + 1;
        }
        k
    }

    /// The child under the edge labelled `key`, if there is one.
    pub fn child_of(&self, key: &String) -> (r: Option<&TrieNode>)
        ensures
            match r {
                Some(c) => child(*self, key@) == Some(*c),
                None => child(*self, key@) is None,
            },
    {
        let k = self.edge_index(key);
        if k < self.children.len() {
            Some(&self.children[k].node)
        } else {
            None
        }
    }

    /// A fresh chain of nodes spelling `w[k..]` and nothing else.
    fn chain(w: &[String], k: usize) -> (n: TrieNode)
        requires
            k <= w.len(),
        ensures
            forall|v: Seq<Seq<char>>| has_word(n, v) <==> v == views(w@).skip(k as int),
        decreases w.len() - k,
    {
        if k == w.len() {
            let n = TrieNode { children: Vec::new(), is_word: true };
            assert forall|v: Seq<Seq<char>>| has_word(n, v) <==> v == views(w@).skip(
                k as int,
            ) by {
                assert(views(w@).skip(k as int) =~= Seq::<Seq<char>>::empty());
                if v.len() > 0 {
                    assert(find_edge(n.children@, v[0], 0) == 0);
                } else {
                    assert(v =~= views(w@).skip(k as int));
                }
            }
            n
        } else {
            let tail = TrieNode::chain(w, k + 1);
            let mut children: Vec<Edge> = Vec::new();
            children.push(Edge { key: w[k].clone(), node: tail });
            let n = TrieNode { children, is_word: false };
            let ghost rest = views(w@).skip(k as int);
            assert(rest.drop_first() =~= views(w@).skip(k + 1));
            assert(rest.len() > 0 && rest[0] == w@[k as int]@);
            assert forall|v: Seq<Seq<char>>| has_word(n, v) <==> v == rest by {
                if v.len() > 0 {
                    if v[0] == w@[k as int]@ {
                        assert(find_edge(n.children@, v[0], 0) == 0);
                        assert(child(n, v[0]) == Some(tail));
                        assert(has_word(n, v) == has_word(tail, v.drop_first()));
                        if v.drop_first() == rest.drop_first() {
                            lemma_head_tail_eq(v, rest);
                        }
                    } else {
                        assert(find_edge(n.children@, v[0], 1) == 1);
                        assert(child(n, v[0]) is None);
                        assert(v != rest);
                    }
                } else {
                    assert(v != rest);
                }
            }
            n
        }
    }

    /// Store `w[k..]` under this node; returns whether it was not there
    /// before.
    pub fn insert_path(&mut self, w: &[String], k: usize) -> (is_new: bool)
        requires
            k <= w.len(),
        ensures
            forall|v: Seq<Seq<char>>|
                has_word(*final(self), v) <==> (has_word(*old(self), v) || v == views(w@).skip(
                    k as int,
                )),
            is_new == !has_word(*old(self), views(w@).skip(k as int)),
        decreases w.len() - k,
    {
        let ghost rest = views(w@).skip(k as int);
        let ghost before = *self;
        if k == w.len() {
            let was = self.is_word;
            self.is_word = true;
            assert(rest =~= Seq::<Seq<char>>::empty());
            assert forall|v: Seq<Seq<char>>| has_word(*self, v) <==> (has_word(before, v) || v
                == rest) by {
                if v.len() > 0 {
                    assert(child(*self, v[0]) == child(before, v[0]));
                } else {
                    assert(v =~= rest);
                }
            }
            return !was;
        }
        assert(rest.len() > 0 && rest[0] == w@[k as int]@);
        assert(rest.drop_first() =~= views(w@).skip(k + 1));
        let idx = self.edge_index(&w[k]);
        proof {
            lemma_find_edge(self.children@, w@[k as int]@, 0);
        }
        if idx < self.children.len() {
            let ghost old_child = self.children@[idx as int].node;
            let ghost old_key = self.children@[idx as int].key;
            let mut e = self.children.remove(idx);
            let is_new = e.node.insert_path(w, k + 1);
            self.children.insert(idx, e);
            proof {
                let es = before.children@;
                assert(self.children@ =~= es.update(idx as int, self.children@[idx as int]));
                assert forall|key: Seq<char>| find_edge(self.children@, key, 0) == find_edge(
                    es,
                    key,
                    0,
                ) by {
                    lemma_find_edge_update(es, idx as int, self.children@[idx as int], key, 0);
                }
                assert forall|v: Seq<Seq<char>>| has_word(*self, v) <==> (has_word(before, v)
                    || v == rest) by {
                    if v.len() > 0 {
                        if v[0] == rest[0] {
                            assert(child(*self, v[0]) == Some(self.children@[idx as int].node));
                            assert(child(before, v[0]) == Some(old_child));
                            assert(has_word(*self, v) == has_word(
                                self.children@[idx as int].node,
                                v.drop_first(),
                            ));
                            assert(has_word(before, v) == has_word(old_child, v.drop_first()));
                            if v.drop_first() == rest.drop_first() {
                                lemma_head_tail_eq(v, rest);
                            }
                        } else {
                            assert(v != rest);
                            let j = find_edge(es, v[0], 0);
                            lemma_find_edge(es, v[0], 0);
                            if 0 <= j < es.len() {
                                assert(j != idx);
                                assert(self.children@[j] == es[j]);
                            }
                        }
                    } else {
                        assert(v != rest);
                    }
                }
                assert(has_word(before, rest) == has_word(old_child, rest.drop_first()));
            }
            is_new
        } else {
            let tail = TrieNode::chain(w, k + 1);
            let ghost es = self.children@;
            let edge = Edge { key: w[k].clone(), node: tail };
            self.children.push(edge);
            proof {
                assert forall|v: Seq<Seq<char>>| has_word(*self, v) <==> (has_word(before, v)
                    || v == rest) by {
                    if v.len() > 0 {
                        lemma_find_edge(es, v[0], 0);
                        lemma_find_edge_push(es, edge, v[0], 0);
                        if v[0] == rest[0] {
                            assert(child(*self, v[0]) == Some(tail));
                            assert(child(before, v[0]) is None);
                            assert(has_word(*self, v) == has_word(tail, v.drop_first()));
                            if v.drop_first() == rest.drop_first() {
                                lemma_head_tail_eq(v, rest);
                            }
                        } else {
                            assert(v != rest);
                            let j = find_edge(es, v[0], 0);
                            if j < es.len() {
                                assert(self.children@[j] == es[j]);
                            }
                        }
                    } else {
                        assert(v != rest);
                    }
                }
                assert(!has_word(before, rest));
            }
            true
        }
    }

    /// Whether the exact cluster sequence `w` is stored under this node.
    pub fn lookup(&self, w: &[String]) -> (r: bool)
        ensures
            r == has_word(*self, views(w@)),
    {
        let mut node = self;
        let mut j: usize = 0;
        proof {
            assert(views(w@).take(0) =~= Seq::<Seq<char>>::empty());
        }
        while j < w.len()
            invariant
                j <= w.len(),
                node_at(*self, views(w@).take(j as int)) == Some(*node),
            decreases w.len() - j,
        {
            proof {
                lemma_node_at_push(*self, views(w@).take(j as int), w@[j as int]@);
                assert(views(w@).take(j + 1) =~= views(w@).take(j as int).push(w@[j as int]@));
            }
            match node.child_of(&w[j]) {
                Some(next) => {
                    node = next;
                    j = j + 1;
                },
                None => {
                    proof {
                        lemma_node_at_dead(
                            *self,
                            views(w@).take(j + 1),
                            views(w@).skip(j + 1),
                        );
                        assert(views(w@).take(j + 1) + views(w@).skip(j + 1) =~= views(w@));
                    }
                    return false;
                },
            }
        }
        assert(views(w@).take(j as int) =~= views(w@));
        node.is_word
    }
}

} // verus!
