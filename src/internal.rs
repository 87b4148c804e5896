//! The nodes and edges of the compressed trie, and each node's bounded cache
//! of its best ranked suggestions.
use crate::ranking::{is_top, CAP};
use crate::suggestion::{below, entries, lemma_below_strict_total, Entry, Suggestion};
use std::cmp::Ordering;
use std::rc::Rc;
use vstd::prelude::*;

verus! {

/// A node of the trie.
#[derive(Debug)]
pub struct Node {
    /// Outgoing edges; no two of them start with the same character.
    pub(crate) edges: Vec<Edge>,
    /// The suggestion whose word ends exactly at this node, if any.
    pub(crate) suggestion: Option<Rc<Suggestion>>,
    /// The best ranked suggestions below this node, highest ranked first.
    pub(crate) top_suggestions: Vec<Rc<Suggestion>>,
}

/// An edge of the trie: a non-empty label and the node it leads to.
#[derive(Debug)]
pub struct Edge {
    pub(crate) part: Vec<char>,
    pub(crate) node: Node,
}

/// Relies on `Rc::clone`: another handle to the same value.
#[verifier::external_body]
pub(crate) fn share<T>(r: &Rc<T>) -> (c: Rc<T>)
    ensures
        c == *r,
{
    Rc::clone(r)
}

/// Copies a list of shared suggestions, sharing each one.
pub(crate) fn share_all(c: &Vec<Rc<Suggestion>>) -> (r: Vec<Rc<Suggestion>>)
    ensures
        r@ == c@,
{
    let mut r: Vec<Rc<Suggestion>> = Vec::new();
    let mut i: usize = 0;
    while i < c.len()
        invariant
            i <= c.len(),
            r@ == c@.subrange(0, i as int),
        decreases c.len() - i,
    {
        r.push(share(&c[i]));
        i = i + 1;
        assert(r@ =~= c@.subrange(0, i as int));
    }
    assert(c@.subrange(0, c.len() as int) =~= c@);
    r
}

impl Node {
    pub(crate) fn new(suggestion: Rc<Suggestion>) -> (r: Node)
        ensures
            r.edges@.len() == 0,
            r.suggestion == Some(suggestion),
            entries(r.top_suggestions@) == seq![suggestion@],
    {
        let mut node = Node::empty();
        node.top_suggestions.push(share(&suggestion));
        node.suggestion = Some(suggestion);
        assert(entries(node.top_suggestions@) =~= seq![suggestion@]);
        node
    }

    pub(crate) fn empty() -> (r: Node)
        ensures
            r.edges@.len() == 0,
            r.suggestion is None,
            r.top_suggestions@.len() == 0,
    {
        Node { edges: Vec::new(), suggestion: None, top_suggestions: Vec::new() }
    }

    /// Offers `suggestion` to the cache: it stays if it ranks among the best
    /// `CAP` of what the cache holds together with it.
    pub(crate) fn add_suggestion(&mut self, suggestion: Rc<Suggestion>, Ghost(seen): Ghost<Set<Entry>>)
        requires
            is_top(entries(old(self).top_suggestions@), seen, CAP as nat),
        ensures
            is_top(entries(final(self).top_suggestions@), seen.insert(suggestion@), CAP as nat),
            final(self).edges == old(self).edges,
            final(self).suggestion == old(self).suggestion,
    {
        let ghost x = suggestion@;
        let ghost c = entries(self.top_suggestions@);
        let ghost s2 = seen.insert(x);
        let n = self.top_suggestions.len();
        let mut i: usize = 0;
        while i < n
            invariant
                n == self.top_suggestions@.len(),
                c == entries(self.top_suggestions@),
                x == suggestion@,
                s2 == seen.insert(x),
                is_top(c, seen, CAP as nat),
                i <= n,
                forall|j: int| 0 <= j < i ==> c[j] != x,
            decreases n - i,
        {
            assert(c[i as int] == self.top_suggestions@[i as int]@);
            if matches!(self.top_suggestions[i].compare(&suggestion), Ordering::Equal) {
                proof {
                    assert(seen.contains(c[i as int]));
                    assert(s2 =~= seen);
                }
                return;
            }
            i = i + 1;
        }
        assert(!c.contains(x));
        if n >= CAP {
            let lowest = self.first_suggestion();
            if let Some(low) = lowest {
                if !matches!(suggestion.compare(low), Ordering::Greater) {
                    proof {
                        let l = c[n - 1];
                        lemma_below_strict_total(x, l, x);
                        assert forall|y: Entry, k: int|
                            0 <= k < c.len() && #[trigger] s2.contains(y) && !c.contains(y) implies below(
                            y,
                            #[trigger] c[k],
                        ) by {
                            if y != x {
                                assert(seen.contains(y));
                            }
                            if k < n - 1 {
                                assert(below(c[n - 1], c[k]));
                                lemma_below_strict_total(y, c[n - 1], c[k]);
                            }
                        }
                    }
                    return;
                }
            }
            self.top_suggestions.pop();
        }
        let ghost d = entries(self.top_suggestions@);
        assert(d =~= if n >= CAP { c.drop_last() } else { c });
        assert(!d.contains(x)) by {
            if d.contains(x) {
                let k = choose|k: int| 0 <= k < d.len() && d[k] == x;
                assert(c[k] == x);
            }
        }
        let m = self.top_suggestions.len();
        let mut pos: usize = 0;
        while pos < m
            invariant
                m == self.top_suggestions@.len(),
                d == entries(self.top_suggestions@),
                x == suggestion@,
                pos <= m,
                forall|j: int| 0 <= j < pos ==> below(x, #[trigger] d[j]),
                !d.contains(x),
            ensures
                pos <= m,
                forall|j: int| 0 <= j < pos ==> below(x, #[trigger] d[j]),
                pos < m ==> !below(x, d[pos as int]),
            decreases m - pos,
        {
            assert(d[pos as int] == self.top_suggestions@[pos as int]@);
            if !matches!(self.top_suggestions[pos].compare(&suggestion), Ordering::Greater) {
                break;
            }
            pos = pos + 1;
        }
        proof {
            if pos < m {
                lemma_below_strict_total(d[pos as int], x, d[pos as int]);
                assert(d[pos as int] != x) by {
                    assert(d.contains(d[pos as int]));
                }
                assert(below(d[pos as int], x));
            }
        }
        self.top_suggestions.insert(pos, suggestion);
        proof {
            let r = entries(self.top_suggestions@);
            assert(r =~= d.insert(pos as int, x));
            assert forall|j: int| pos < j < r.len() implies below(#[trigger] r[j], x) by {
                assert(r[j] == d[j - 1]);
                if j - 1 > pos {
                    assert(below(d[j - 1], d[pos as int]));
                    lemma_below_strict_total(d[j - 1], d[pos as int], x);
                }
            }
            assert forall|a: int, b: int| 0 <= a < b < r.len() implies below(
                #[trigger] r[b],
                #[trigger] r[a],
            ) by {
                if a < pos && b < pos {
                    assert(r[a] == d[a] && r[b] == d[b]);
                } else if a < pos && b == pos {
                } else if a < pos {
                    assert(r[b] == d[b - 1] && r[a] == d[a]);
                    lemma_below_strict_total(r[b], x, r[a]);
                } else if a == pos {
                } else {
                    assert(r[b] == d[b - 1] && r[a] == d[a - 1]);
                }
            }
            assert forall|k: int| 0 <= k < r.len() implies s2.contains(#[trigger] r[k]) by {
                if k < pos {
                    assert(r[k] == d[k]);
                } else if k > pos {
                    assert(r[k] == d[k - 1]);
                }
            }
            assert forall|y: Entry| #[trigger] s2.contains(y) && r.len() < CAP implies r.contains(y) by {
                if y == x {
                    assert(r[pos as int] == x);
                } else {
                    assert(c.contains(y));
                    let k = choose|k: int| 0 <= k < c.len() && c[k] == y;
                    if k < pos {
                        assert(r[k] == y);
                    } else {
                        assert(r[k + 1] == y);
                    }
                }
            }
            assert forall|y: Entry, k: int|
                0 <= k < r.len() && #[trigger] s2.contains(y) && !r.contains(y) implies below(
                y,
                #[trigger] r[k],
            ) by {
                assert(y != x) by {
                    assert(r[pos as int] == x);
                }
                assert(n >= CAP) by {
                    if n < CAP {
                        assert(c.contains(y));
                        let k2 = choose|k2: int| 0 <= k2 < c.len() && c[k2] == y;
                        if k2 < pos {
                            assert(r[k2] == y);
                        } else {
                            assert(r[k2 + 1] == y);
                        }
                    }
                }
                let l = c[n - 1];
                // `y` ranks at most as high as the entry that was dropped
                assert(y == l || below(y, l)) by {
                    if y != l {
                        if c.contains(y) {
                            let k2 = choose|k2: int| 0 <= k2 < c.len() && c[k2] == y;
                            if k2 < n - 1 {
                                assert(d[k2] == y);
                                if k2 < pos {
                                    assert(r[k2] == y);
                                } else {
                                    assert(r[k2 + 1] == y);
                                }
                            }
                        }
                    }
                }
                if k == pos {
                    lemma_below_strict_total(y, l, x);
                } else {
                    let dk = if k < pos { k } else { k - 1 };
                    assert(r[k] == d[dk]);
                    assert(d[dk] == c[dk]);
                    assert(below(c[n - 1], c[dk]));
                    lemma_below_strict_total(y, l, c[dk]);
                }
            }
        }
    }

    /// The outgoing edges.
    pub open(crate) spec fn spec_edges(&self) -> Seq<Edge> {
        self.edges@
    }

    /// The suggestion whose word ends here.
    pub open(crate) spec fn spec_terminal(&self) -> Option<Rc<Suggestion>> {
        self.suggestion
    }

    /// The cached suggestions, highest ranked first.
    pub open(crate) spec fn spec_top(&self) -> Seq<Rc<Suggestion>> {
        self.top_suggestions@
    }

    /// How many edges leave this node.
    pub fn edge_count(&self) -> (r: usize)
        ensures
            r == self.spec_edges().len(),
    {
        self.edges.len()
    }

    /// The edge that leaves this node with `c`, if there is one.
    pub fn edge(&self, c: char) -> (r: Option<&Edge>)
        ensures
            r matches Some(e) ==> self.spec_edges().contains(*e) && e.spec_part().len() > 0
                && e.spec_part()[0] == c,
            r is None ==> forall|i: int|
                0 <= i < self.spec_edges().len() ==> (#[trigger] self.spec_edges()[i]).spec_part().len()
                    == 0 || self.spec_edges()[i].spec_part()[0] != c,
    {
        let mut i: usize = 0;
        while i < self.edges.len()
            invariant
                i <= self.edges@.len(),
                forall|j: int|
                    0 <= j < i ==> (#[trigger] self.edges@[j]).part@.len() == 0 || self.edges@[j].part@[0]
                        != c,
            decreases self.edges.len() - i,
        {
            let e = &self.edges[i];
            if e.part.len() > 0 && e.part[0] == c {
                assert(self.edges@[i as int] == *e);
                return Some(e);
            }
            i = i + 1;
        }
        None
    }

    /// The suggestion whose word ends exactly at this node, if any.
    pub fn terminal(&self) -> (r: Option<Rc<Suggestion>>)
        ensures
            r == self.spec_terminal(),
    {
        match &self.suggestion {
            Some(s) => Some(share(s)),
            None => None,
        }
    }

    /// The lowest ranked suggestion of the cache.
    pub(crate) fn first_suggestion(&self) -> (r: Option<&Rc<Suggestion>>)
        ensures
            self.top_suggestions@.len() == 0 ==> r is None,
            self.top_suggestions@.len() > 0 ==> r == Some(
                &self.top_suggestions@[self.top_suggestions@.len() - 1],
            ),
    {
        let n = self.top_suggestions.len();
        if n == 0 {
            None
        } else {
            Some(&self.top_suggestions[n - 1])
        }
    }

    /// The cached suggestions, highest ranked first.
    pub fn sorted_suggestions(&self) -> (r: Vec<Rc<Suggestion>>)
        ensures
            r@ == self.spec_top(),
    {
        share_all(&self.top_suggestions)
    }
}

impl Edge {
    /// The label.
    pub open(crate) spec fn spec_part(&self) -> Seq<char> {
        self.part@
    }

    /// The node the edge leads to.
    pub open(crate) spec fn spec_node(&self) -> Node {
        self.node
    }

    /// The label.
    pub fn part(&self) -> (r: &Vec<char>)
        ensures
            r@ == self.spec_part(),
    {
        &self.part
    }

    /// The node the edge leads to.
    pub fn node(&self) -> (r: &Node)
        ensures
            *r == self.spec_node(),
    {
        &self.node
    }

    pub(crate) fn new_node(part: Vec<char>, node: Node) -> (r: Edge)
        ensures
            r.part == part,
            r.node == node,
    {
        Edge { part, node }
    }

    pub(crate) fn new(part: Vec<char>, suggestion: Rc<Suggestion>) -> (r: Edge)
        ensures
            r.part == part,
            r.node.edges@.len() == 0,
            r.node.suggestion == Some(suggestion),
            entries(r.node.top_suggestions@) == seq![suggestion@],
    {
        Edge::new_node(part, Node::new(suggestion))
    }

    pub(crate) fn empty(part: Vec<char>) -> (r: Edge)
        ensures
            r.part == part,
            r.node.edges@.len() == 0,
            r.node.suggestion is None,
            r.node.top_suggestions@.len() == 0,
    {
        Edge { part, node: Node::empty() }
    }
}

} // verus!
