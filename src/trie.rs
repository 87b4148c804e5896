//! The compressed trie: words hang off edges labelled with whole fragments,
//! and every node caches the best ranked words below it.
use crate::internal::{share, Edge, Node};
use crate::ranking::{descending, is_top, lemma_top_unique, matching, top_matches, CAP};
use crate::suggestion::{chars_of, entries, Entry, Suggestion};
use std::rc::Rc;
use vstd::prelude::*;

verus! {

/// The compressed trie: answers prefix queries from the cache of one node.
pub struct Trie {
    root: Node,
    vocab: Ghost<Set<Entry>>,
}

impl View for Trie {
    type V = Set<Entry>;

    /// The entries inserted so far.
    closed spec fn view(&self) -> Set<Entry> {
        self.vocab@
    }
}

/// No edge has an empty label, and no two edges leave with the same character.
pub(crate) open spec fn labels_ok(edges: Seq<Edge>) -> bool {
    &&& forall|i: int| 0 <= i < edges.len() ==> (#[trigger] edges[i]).part@.len() > 0
    &&& forall|i: int, j: int|
        0 <= i < j < edges.len() ==> (#[trigger] edges[i]).part@[0] != (#[trigger] edges[j]).part@[0]
}

/// `node`, reached from the root by `path`, is a well formed subtree for `vocab`:
/// its cache holds the best matches of `path`, each word of `vocab` that goes
/// on past `path` leaves by the one edge that starts with its next character
/// and follows that edge's whole label, and the same holds below.
pub(crate) open spec fn node_wf(node: Node, path: Seq<char>, vocab: Set<Entry>) -> bool
    decreases node,
{
    &&& is_top(entries(node.top_suggestions@), matching(vocab, path), CAP as nat)
    &&& node.suggestion is Some ==> node.suggestion->0@.0 == path && vocab.contains(
        node.suggestion->0@,
    )
    &&& (exists|e: Entry| #[trigger] vocab.contains(e) && e.0 == path) ==> node.suggestion is Some
    &&& labels_ok(node.edges@)
    &&& forall|e: Entry|
        #[trigger] vocab.contains(e) && path.is_prefix_of(e.0) && e.0.len() > path.len() ==> exists|
            i: int,
        |
            0 <= i < node.edges@.len() && (#[trigger] node.edges@[i]).part@[0] == e.0[path.len() as int]
    &&& forall|i: int, e: Entry|
        0 <= i < node.edges@.len() && #[trigger] vocab.contains(e) && path.push(
            (#[trigger] node.edges@[i]).part@[0],
        ).is_prefix_of(e.0) ==> (path + node.edges@[i].part@).is_prefix_of(e.0)
    &&& forall|i: int|
        0 <= i < node.edges@.len() ==> node_wf(
            #[trigger] node.edges@[i].node,
            path + node.edges@[i].part@,
            vocab,
        )
}

/// `p` is a prefix of `s` when `s` agrees with it at each of its positions.
proof fn lemma_prefix_from_indices(p: Seq<char>, s: Seq<char>)
    requires
        p.len() <= s.len(),
        forall|j: int| 0 <= j < p.len() ==> p[j] == s[j],
    ensures
        p.is_prefix_of(s),
{
    assert(p =~= s.subrange(0, p.len() as int));
}

/// The position of the edge that leaves with `c`, if there is one.
fn find_edge(edges: &Vec<Edge>, c: char) -> (r: Option<usize>)
    requires
        labels_ok(edges@),
    ensures
        r matches Some(i) ==> i < edges@.len() && edges@[i as int].part@[0] == c,
        r is None ==> forall|i: int| 0 <= i < edges@.len() ==> (#[trigger] edges@[i]).part@[0] != c,
{
    let mut i: usize = 0;
    while i < edges.len()
        invariant
            labels_ok(edges@),
            i <= edges@.len(),
            forall|j: int| 0 <= j < i ==> (#[trigger] edges@[j]).part@[0] != c,
        decreases edges.len() - i,
    {
        assert(edges@[i as int].part@.len() > 0);
        if edges[i].part[0] == c {
            return Some(i);
        }
        i = i + 1;
    }
    None
}

impl Trie {
    /// Answers a query for `input[from..]` below `node`, which `path` reaches.
    fn walk(
        node: &Node,
        input: &Vec<char>,
        from: usize,
        Ghost(path): Ghost<Seq<char>>,
        Ghost(vocab): Ghost<Set<Entry>>,
    ) -> (r: Vec<Rc<Suggestion>>)
        requires
            node_wf(*node, path, vocab),
            from <= input@.len(),
        ensures
            is_top(entries(r@), matching(vocab, path + input@.skip(from as int)), CAP as nat),
        decreases input@.len() - from,
    {
        let ghost rest = input@.skip(from as int);
        let ghost q = path + rest;
        if from == input.len() {
            assert(q =~= path);
            return node.sorted_suggestions();
        }
        match find_edge(&node.edges, input[from]) {
            None => {
                proof {
                    assert(matching(vocab, q) =~= Set::empty()) by {
                        assert forall|e: Entry| !#[trigger] matching(vocab, q).contains(e) by {
                            if matching(vocab, q).contains(e) {
                                assert(vocab.contains(e) && q.is_prefix_of(e.0));
                                assert(e.0[path.len() as int] == q[path.len() as int]);
                                lemma_prefix_from_indices(path, e.0);
                                let i = choose|i: int|
                                    0 <= i < node.edges@.len() && (#[trigger] node.edges@[i]).part@[0]
                                        == e.0[path.len() as int];
                            }
                        }
                    }
                    assert(entries(Seq::<Rc<Suggestion>>::empty()) =~= Seq::empty());
                }
                Vec::new()
            },
            Some(i) => {
                let edge = &node.edges[i];
                let ghost part = edge.part@;
                let n = input.len();
                let m = edge.part.len();
                let mut k: usize = 0;
                while from + k < n && k < m && input[from + k] == edge.part[k]
                    invariant
                        from <= n == input@.len(),
                        m == part.len(),
                        part == edge.part@,
                        k <= m,
                        from + k <= n,
                        forall|j: int| 0 <= j < k ==> input@[from + j] == part[j],
                    decreases m - k,
                {
                    k = k + 1;
                }
                assert(node_wf(edge.node, path + part, vocab));
                proof {
                    // every match of `q` follows the whole label
                    assert forall|e: Entry| #[trigger] vocab.contains(e) && q.is_prefix_of(e.0) implies (
                    path + part).is_prefix_of(e.0) by {
                        assert(q[path.len() as int] == input@[from as int]);
                        assert(e.0.subrange(0, q.len() as int)[path.len() as int] == q[path.len() as int]);
                        assert(e.0[path.len() as int] == part[0]);
                        assert forall|j: int| 0 <= j < path.len() + 1 implies path.push(part[0])[j] == e.0[j] by {
                            if j < path.len() {
                                assert(e.0.subrange(0, q.len() as int)[j] == q[j]);
                            }
                        }
                        lemma_prefix_from_indices(path.push(part[0]), e.0);
                    }
                }
                if k == m {
                    proof {
                        assert((path + part) + input@.skip((from + k) as int) =~= q);
                    }
                    Trie::walk(&edge.node, input, from + k, Ghost(path + part), Ghost(vocab))
                } else if from + k == n {
                    proof {
                        assert(rest.len() == k);
                        assert(matching(vocab, q) =~= matching(vocab, path + part)) by {
                            assert forall|e: Entry| #[trigger] vocab.contains(e) && (path + part).is_prefix_of(e.0)
                                implies q.is_prefix_of(e.0) by {
                                assert forall|j: int| 0 <= j < q.len() implies q[j] == e.0[j] by {
                                    assert(e.0.subrange(0, (path.len() + part.len()) as int)[j] == (path + part)[j]);
                                    if j >= path.len() {
                                        assert(q[j] == input@[from + j - path.len()]);
                                    }
                                }
                                lemma_prefix_from_indices(q, e.0);
                            }
                        }
                    }
                    edge.node.sorted_suggestions()
                } else {
                    proof {
                        assert(matching(vocab, q) =~= Set::empty()) by {
                            assert forall|e: Entry| !#[trigger] matching(vocab, q).contains(e) by {
                                if matching(vocab, q).contains(e) {
                                    let j = path.len() + k;
                                    assert(e.0[j] == q[j]);
                                    assert(e.0[j] == (path + part)[j]);
                                }
                            }
                        }
                        assert(entries(Seq::<Rc<Suggestion>>::empty()) =~= Seq::empty());
                    }
                    Vec::new()
                }
            },
        }
    }
}

/// A prefix of a prefix is a prefix.
proof fn lemma_prefix_trans(a: Seq<char>, b: Seq<char>, c: Seq<char>)
    requires
        a.is_prefix_of(b),
        b.is_prefix_of(c),
    ensures
        a.is_prefix_of(c),
{
    assert forall|j: int| 0 <= j < a.len() implies a[j] == c[j] by {
        assert(b.subrange(0, a.len() as int)[j] == b[j]);
        assert(c.subrange(0, b.len() as int)[j] == c[j]);
    }
    lemma_prefix_from_indices(a, c);
}

/// Adding a word that does not pass through `node` keeps it well formed.
proof fn lemma_wf_elsewhere(node: Node, path: Seq<char>, vocab: Set<Entry>, x: Entry)
    requires
        node_wf(node, path, vocab),
        !path.is_prefix_of(x.0),
    ensures
        node_wf(node, path, vocab.insert(x)),
    decreases node,
{
    let v2 = vocab.insert(x);
    assert(matching(v2, path) =~= matching(vocab, path));
    assert(path.is_prefix_of(path)) by {
        lemma_prefix_from_indices(path, path);
    }
    if exists|e: Entry| #[trigger] v2.contains(e) && e.0 == path {
        let e = choose|e: Entry| #[trigger] v2.contains(e) && e.0 == path;
        assert(vocab.contains(e));
    }
    assert forall|i: int| 0 <= i < node.edges@.len() implies node_wf(
        #[trigger] node.edges@[i].node,
        path + node.edges@[i].part@,
        v2,
    ) by {
        let p2 = path + node.edges@[i].part@;
        assert(path.is_prefix_of(p2)) by {
            lemma_prefix_from_indices(path, p2);
        }
        if p2.is_prefix_of(x.0) {
            lemma_prefix_trans(path, p2, x.0);
        }
        lemma_wf_elsewhere(node.edges@[i].node, p2, vocab, x);
    }
    assert forall|i: int, e: Entry|
        0 <= i < node.edges@.len() && #[trigger] v2.contains(e) && path.push(
            (#[trigger] node.edges@[i]).part@[0],
        ).is_prefix_of(e.0) implies (path + node.edges@[i].part@).is_prefix_of(e.0) by {
        let p1 = path.push(node.edges@[i].part@[0]);
        assert(path.is_prefix_of(p1)) by {
            lemma_prefix_from_indices(path, p1);
        }
        if e == x {
            lemma_prefix_trans(path, p1, x.0);
        }
    }
}

/// The characters of `v` from `lo` up to `hi`.
fn slice_chars(v: &Vec<char>, lo: usize, hi: usize) -> (r: Vec<char>)
    requires
        lo <= hi <= v@.len(),
    ensures
        r@ == v@.subrange(lo as int, hi as int),
{
    let mut r: Vec<char> = Vec::new();
    let mut i: usize = lo;
    while i < hi
        invariant
            lo <= i <= hi <= v@.len(),
            r@ == v@.subrange(lo as int, i as int),
        decreases hi - i,
    {
        r.push(v[i]);
        i = i + 1;
        assert(r@ =~= v@.subrange(lo as int, i as int));
    }
    r
}

/// `path` followed by anything starts with `path`.
proof fn lemma_prefix_of_concat(path: Seq<char>, more: Seq<char>)
    ensures
        path.is_prefix_of(path + more),
{
    lemma_prefix_from_indices(path, path + more);
}

/// Replacing edge `i` by one with a shorter (or the same) label, below which
/// the new word `x` now stands, keeps the node well formed for `vocab + x`.
proof fn lemma_replace_edge(old: Node, new: Node, i: int, path: Seq<char>, vocab: Set<Entry>, x: Entry)
    requires
        node_wf(old, path, vocab),
        0 <= i < old.edges@.len(),
        new.edges@.len() == old.edges@.len(),
        forall|t: int| 0 <= t < old.edges@.len() && t != i ==> new.edges@[t] == old.edges@[t],
        new.edges@[i].part@.len() > 0,
        new.edges@[i].part@.is_prefix_of(old.edges@[i].part@),
        (path + new.edges@[i].part@).is_prefix_of(x.0),
        node_wf(new.edges@[i].node, path + new.edges@[i].part@, vocab.insert(x)),
        is_top(entries(new.top_suggestions@), matching(vocab.insert(x), path), CAP as nat),
        new.suggestion == old.suggestion,
    ensures
        node_wf(new, path, vocab.insert(x)),
{
    let v2 = vocab.insert(x);
    let np = new.edges@[i].part@;
    let op = old.edges@[i].part@;
    let c = np[0];
    assert(op[0] == c) by {
        assert(op.subrange(0, np.len() as int)[0] == op[0]);
    }
    assert(x.0[path.len() as int] == c) by {
        assert(x.0.subrange(0, (path + np).len() as int)[path.len() as int] == (path + np)[path.len() as int]);
    }
    lemma_prefix_of_concat(path, np);
    lemma_prefix_trans(path, path + np, x.0);
    assert(x.0.len() > path.len());
    if exists|e: Entry| #[trigger] v2.contains(e) && e.0 == path {
        let e = choose|e: Entry| #[trigger] v2.contains(e) && e.0 == path;
        assert(vocab.contains(e));
    }
    assert(labels_ok(new.edges@)) by {
        assert forall|a: int, b: int| 0 <= a < b < new.edges@.len() implies (
        #[trigger] new.edges@[a]).part@[0] != (#[trigger] new.edges@[b]).part@[0] by {
            assert(old.edges@[a].part@[0] != old.edges@[b].part@[0]);
        }
        assert forall|a: int| 0 <= a < new.edges@.len() implies (
        #[trigger] new.edges@[a]).part@.len() > 0 by {
            assert(old.edges@[a].part@.len() > 0);
        }
    }
    assert forall|e: Entry|
        #[trigger] v2.contains(e) && path.is_prefix_of(e.0) && e.0.len() > path.len() implies exists|
            t: int,
        | 0 <= t < new.edges@.len() && (#[trigger] new.edges@[t]).part@[0] == e.0[path.len() as int] by {
        if e == x {
            assert(new.edges@[i].part@[0] == e.0[path.len() as int]);
        } else {
            assert(vocab.contains(e));
            let t = choose|t: int|
                0 <= t < old.edges@.len() && (#[trigger] old.edges@[t]).part@[0] == e.0[path.len() as int];
            assert(new.edges@[t].part@[0] == e.0[path.len() as int]);
        }
    }
    assert forall|t: int, e: Entry|
        0 <= t < new.edges@.len() && #[trigger] v2.contains(e) && path.push(
            (#[trigger] new.edges@[t]).part@[0],
        ).is_prefix_of(e.0) implies (path + new.edges@[t].part@).is_prefix_of(e.0) by {
        let ct = new.edges@[t].part@[0];
        assert(e.0[path.len() as int] == ct) by {
            assert(e.0.subrange(0, path.len() + 1int)[path.len() as int] == path.push(ct)[path.len() as int]);
        }
        if t == i {
            if e != x {
                assert(vocab.contains(e));
                assert(old.edges@[i].part@[0] == ct);
                assert((path + op).is_prefix_of(e.0));
                assert((path + np).is_prefix_of(path + op)) by {
                    assert forall|j: int| 0 <= j < (path + np).len() implies (path + np)[j] == (path
                        + op)[j] by {
                        if j >= path.len() {
                            assert(op.subrange(0, np.len() as int)[j - path.len()] == op[j - path.len()]);
                        }
                    }
                    lemma_prefix_from_indices(path + np, path + op);
                }
                lemma_prefix_trans(path + np, path + op, e.0);
            }
        } else {
            assert(ct != c);
            assert(e != x);
            assert(vocab.contains(e));
            assert(new.edges@[t] == old.edges@[t]);
        }
    }
    assert forall|t: int| 0 <= t < new.edges@.len() implies node_wf(
        #[trigger] new.edges@[t].node,
        path + new.edges@[t].part@,
        v2,
    ) by {
        if t != i {
            let pt = old.edges@[t].part@;
            assert(new.edges@[t] == old.edges@[t]);
            assert(pt[0] != c);
            if (path + pt).is_prefix_of(x.0) {
                assert(x.0.subrange(0, (path + pt).len() as int)[path.len() as int] == (path
                    + pt)[path.len() as int]);
            }
            lemma_wf_elsewhere(old.edges@[t].node, path + pt, vocab, x);
        }
    }
}

/// The node that a split puts at `k` characters into the label `part` of an
/// edge leading to `child` is well formed.
proof fn lemma_split(
    owner: Node,
    i: int,
    mid: Node,
    k: int,
    path: Seq<char>,
    vocab: Set<Entry>,
)
    requires
        node_wf(owner, path, vocab),
        0 <= i < owner.edges@.len(),
        0 < k < owner.edges@[i].part@.len(),
        mid.edges@.len() == 1,
        mid.edges@[0].part@ == owner.edges@[i].part@.subrange(k, owner.edges@[i].part@.len() as int),
        mid.edges@[0].node == owner.edges@[i].node,
        mid.suggestion is None,
        entries(mid.top_suggestions@) == entries(owner.edges@[i].node.top_suggestions@),
    ensures
        node_wf(mid, path + owner.edges@[i].part@.subrange(0, k), vocab),
{
    let part = owner.edges@[i].part@;
    let child = owner.edges@[i].node;
    let pre = part.subrange(0, k);
    let suf = part.subrange(k, part.len() as int);
    let p = path + pre;
    assert(node_wf(child, path + part, vocab));
    assert(p + suf =~= path + part);
    // every word that reaches into the label follows all of it
    assert forall|e: Entry| #[trigger] vocab.contains(e) && p.is_prefix_of(e.0) implies (path
        + part).is_prefix_of(e.0) by {
        assert(path.push(part[0]).is_prefix_of(e.0)) by {
            assert forall|j: int| 0 <= j < path.len() + 1 implies path.push(part[0])[j] == e.0[j] by {
                assert(e.0.subrange(0, p.len() as int)[j] == p[j]);
            }
            lemma_prefix_from_indices(path.push(part[0]), e.0);
        }
    }
    assert(matching(vocab, p) =~= matching(vocab, path + part)) by {
        assert forall|e: Entry| #[trigger] vocab.contains(e) && (path + part).is_prefix_of(e.0)
            implies p.is_prefix_of(e.0) by {
            assert(p.is_prefix_of(path + part)) by {
                lemma_prefix_from_indices(p, path + part);
            }
            lemma_prefix_trans(p, path + part, e.0);
        }
    }
    assert(mid.edges@[0].part@ == suf);
    assert(suf.len() > 0);
    assert(labels_ok(mid.edges@));
    if exists|e: Entry| #[trigger] vocab.contains(e) && e.0 == p {
        let e = choose|e: Entry| #[trigger] vocab.contains(e) && e.0 == p;
        lemma_prefix_from_indices(p, e.0);
        assert((path + part).is_prefix_of(e.0));
    }
    assert forall|e: Entry|
        #[trigger] vocab.contains(e) && p.is_prefix_of(e.0) && e.0.len() > p.len() implies exists|
            t: int,
        | 0 <= t < mid.edges@.len() && (#[trigger] mid.edges@[t]).part@[0] == e.0[p.len() as int] by {
        assert((path + part).is_prefix_of(e.0));
        assert(e.0.subrange(0, (path + part).len() as int)[p.len() as int] == (path + part)[p.len() as int]);
        assert(mid.edges@[0].part@[0] == e.0[p.len() as int]);
    }
    assert forall|t: int, e: Entry|
        0 <= t < mid.edges@.len() && #[trigger] vocab.contains(e) && p.push(
            (#[trigger] mid.edges@[t]).part@[0],
        ).is_prefix_of(e.0) implies (p + mid.edges@[t].part@).is_prefix_of(e.0) by {
        lemma_prefix_of_concat(p, seq![suf[0]]);
        assert(p.push(suf[0]) =~= p + seq![suf[0]]);
        lemma_prefix_trans(p, p.push(suf[0]), e.0);
    }
    assert forall|t: int| 0 <= t < mid.edges@.len() implies node_wf(
        #[trigger] mid.edges@[t].node,
        p + mid.edges@[t].part@,
        vocab,
    ) by {
        assert(t == 0);
    }
}

impl Trie {
    /// Adds the entry `suggestion` to the subtree `node`, which `path` reaches;
    /// `remaining[from..]` is the rest of its word past `path`.
    fn insert_at(
        node: &mut Node,
        remaining: &Vec<char>,
        from: usize,
        suggestion: Rc<Suggestion>,
        Ghost(path): Ghost<Seq<char>>,
        Ghost(vocab): Ghost<Set<Entry>>,
    )
        requires
            node_wf(*old(node), path, vocab),
            from <= remaining@.len(),
            path + remaining@.skip(from as int) == suggestion@.0,
        ensures
            node_wf(*final(node), path, vocab.insert(suggestion@)),
        decreases remaining@.len() - from,
    {
        let ghost x = suggestion@;
        let ghost v2 = vocab.insert(x);
        let ghost old_node = *node;
        proof {
            lemma_prefix_of_concat(path, remaining@.skip(from as int));
            assert(matching(v2, path) =~= matching(vocab, path).insert(x));
        }
        node.add_suggestion(share(&suggestion), Ghost(matching(vocab, path)));
        if from == remaining.len() {
            node.suggestion = Some(suggestion);
            proof {
                assert(x.0 =~= path);
                assert forall|e: Entry|
                    #[trigger] v2.contains(e) && path.is_prefix_of(e.0) && e.0.len() > path.len() implies exists|
                        t: int,
                    | 0 <= t < node.edges@.len() && (#[trigger] node.edges@[t]).part@[0] == e.0[path.len() as int] by {
                    assert(vocab.contains(e));
                }
                assert forall|t: int, e: Entry|
                    0 <= t < node.edges@.len() && #[trigger] v2.contains(e) && path.push(
                        (#[trigger] node.edges@[t]).part@[0],
                    ).is_prefix_of(e.0) implies (path + node.edges@[t].part@).is_prefix_of(e.0) by {
                    assert(e != x);
                }
                assert forall|t: int| 0 <= t < node.edges@.len() implies node_wf(
                    #[trigger] node.edges@[t].node,
                    path + node.edges@[t].part@,
                    v2,
                ) by {
                    assert(old_node.edges@[t] == node.edges@[t]);
                    assert(node.edges@[t].part@.len() > 0);
                    lemma_wf_elsewhere(node.edges@[t].node, path + node.edges@[t].part@, vocab, x);
                }
            }
            return;
        }
        let ch = remaining[from];
        proof {
            assert(x.0[path.len() as int] == ch);
        }
        match find_edge(&node.edges, ch) {
            None => {
                let label = slice_chars(remaining, from, remaining.len());
                let ghost before = node.edges@;
                let edge = Edge::new(label, suggestion);
                proof {
                    assert(path + label@ == x.0);
                    // no word of `vocab` leaves `path` with `ch`
                    assert forall|e: Entry| #[trigger] vocab.contains(e) implies !path.push(ch).is_prefix_of(
                        e.0,
                    ) by {
                        if path.push(ch).is_prefix_of(e.0) {
                            assert(e.0.subrange(0, path.len() + 1int)[path.len() as int] == ch);
                            assert forall|j: int| 0 <= j < path.len() implies path[j] == e.0[j] by {
                                assert(e.0.subrange(0, path.len() + 1int)[j] == path.push(ch)[j]);
                            }
                            lemma_prefix_from_indices(path, e.0);
                            let t = choose|t: int|
                                0 <= t < before.len() && (#[trigger] before[t]).part@[0] == e.0[path.len() as int];
                        }
                    }
                    assert(path.push(ch).is_prefix_of(x.0)) by {
                        assert forall|j: int| 0 <= j < path.len() + 1 implies path.push(ch)[j] == x.0[j] by {}
                        lemma_prefix_from_indices(path.push(ch), x.0);
                    }
                    assert(matching(v2, x.0) =~= set![x]) by {
                        assert forall|e: Entry| #[trigger] matching(v2, x.0).contains(e) implies e == x by {
                            if e != x {
                                lemma_prefix_trans(path.push(ch), x.0, e.0);
                            }
                        }
                    }
                    assert(set![x].contains(x));
                    assert(entries(edge.node.top_suggestions@) == seq![x]);
                    assert(seq![x].contains(x)) by {
                        assert(seq![x][0] == x);
                    }
                    assert(is_top(seq![x], matching(v2, x.0), CAP as nat)) by {
                        assert forall|y: Entry| #[trigger] matching(v2, x.0).contains(y) implies seq![x].contains(y) by {}
                    }
                    assert(path + edge.part@ == x.0);
                    assert(labels_ok(edge.node.edges@));
                    assert(node_wf(edge.node, path + edge.part@, v2)) by {
                        assert forall|e: Entry|
                            #[trigger] v2.contains(e) && x.0.is_prefix_of(e.0) && e.0.len() > x.0.len() implies false by {
                            lemma_prefix_trans(path.push(ch), x.0, e.0);
                        }
                        if exists|e: Entry| #[trigger] v2.contains(e) && e.0 == x.0 {
                        }
                    }
                }
                node.edges.push(edge);
                proof {
                    let after = node.edges@;
                    let n = before.len();
                    assert(after[n as int] == edge);
                    assert(labels_ok(after)) by {
                        assert forall|a: int, b: int| 0 <= a < b < after.len() implies (
                        #[trigger] after[a]).part@[0] != (#[trigger] after[b]).part@[0] by {
                            assert(after[a] == before[a]);
                            if b < n {
                                assert(after[b] == before[b]);
                            }
                        }
                        assert forall|a: int| 0 <= a < after.len() implies (#[trigger] after[a]).part@.len() > 0 by {
                            if a < n {
                                assert(after[a] == before[a]);
                            }
                        }
                    }
                    if exists|e: Entry| #[trigger] v2.contains(e) && e.0 == path {
                        let e = choose|e: Entry| #[trigger] v2.contains(e) && e.0 == path;
                        assert(vocab.contains(e));
                    }
                    assert forall|e: Entry|
                        #[trigger] v2.contains(e) && path.is_prefix_of(e.0) && e.0.len() > path.len() implies exists|
                            t: int,
                        | 0 <= t < after.len() && (#[trigger] after[t]).part@[0] == e.0[path.len() as int] by {
                        if e == x {
                            assert(after[n as int].part@[0] == ch);
                        } else {
                            assert(vocab.contains(e));
                            let t = choose|t: int|
                                0 <= t < before.len() && (#[trigger] before[t]).part@[0] == e.0[path.len() as int];
                            assert(after[t] == before[t]);
                        }
                    }
                    assert forall|t: int, e: Entry|
                        0 <= t < after.len() && #[trigger] v2.contains(e) && path.push(
                            (#[trigger] after[t]).part@[0],
                        ).is_prefix_of(e.0) implies (path + after[t].part@).is_prefix_of(e.0) by {
                        if t < n {
                            assert(after[t] == before[t]);
                            if e == x {
                                assert(before[t].part@[0] != ch);
                                assert(e.0.subrange(0, path.len() + 1int)[path.len() as int] == before[t].part@[0]);
                            }
                        } else {
                            assert(after[t] == edge);
                            assert(e == x);
                            lemma_prefix_from_indices(path + edge.part@, x.0);
                        }
                    }
                    assert forall|t: int| 0 <= t < after.len() implies node_wf(
                        #[trigger] after[t].node,
                        path + after[t].part@,
                        v2,
                    ) by {
                        if t < n {
                            let pt = before[t].part@;
                            assert(after[t] == before[t]);
                            if (path + pt).is_prefix_of(x.0) {
                                assert(x.0.subrange(0, (path + pt).len() as int)[path.len() as int] == (path
                                    + pt)[path.len() as int]);
                            }
                            lemma_wf_elsewhere(before[t].node, path + pt, vocab, x);
                        }
                    }
                }
            },
            Some(i) => {
                let ghost before = *node;
                let Edge { part, node: child } = node.edges.remove(i);
                let n = remaining.len();
                let m = part.len();
                let mut k: usize = 0;
                while from + k < n && k < m && part[k] == remaining[from + k]
                    invariant
                        from <= n == remaining@.len(),
                        m == part@.len(),
                        k <= m,
                        from + k <= n,
                        forall|j: int| 0 <= j < k ==> remaining@[from + j] == part@[j],
                    decreases m - k,
                {
                    k = k + 1;
                }
                proof {
                    assert(before.edges@[i as int].part@ == part@);
                    assert(before.edges@[i as int].node == child);
                    assert(part@[0] == ch);
                    assert(k > 0);
                }
                if k < m {
                    let prefix = slice_chars(&part, 0, k);
                    let suffix = slice_chars(&part, k, m);
                    let mut temp = Edge::empty(prefix);
                    temp.node.top_suggestions = crate::internal::share_all(&child.top_suggestions);
                    temp.node.edges.push(Edge::new_node(suffix, child));
                    proof {
                        assert(temp.node.edges@.len() == 1);
                        assert(before.edges == old_node.edges);
                        lemma_split(old_node, i as int, temp.node, k as int, path, vocab);
                        assert((path + prefix@) + remaining@.skip((from + k) as int) =~= x.0) by {
                            assert forall|j: int| 0 <= j < x.0.len() implies ((path + prefix@) + remaining@.skip(
                                (from + k) as int,
                            ))[j] == x.0[j] by {
                                if j >= path.len() && j < path.len() + k {
                                    assert(remaining@[from + j - path.len()] == part@[j - path.len()]);
                                }
                            }
                        }
                    }
                    Trie::insert_at(&mut temp.node, remaining, from + k, suggestion, Ghost(path + prefix@), Ghost(vocab));
                    node.edges.insert(i, temp);
                    proof {
                        assert(prefix@.is_prefix_of(part@)) by {
                            lemma_prefix_from_indices(prefix@, part@);
                        }
                        lemma_prefix_of_concat(path + prefix@, remaining@.skip((from + k) as int));
                        assert(node.edges@[i as int] == temp);
                        assert forall|t: int| 0 <= t < before.edges@.len() && t != i implies node.edges@[t]
                            == before.edges@[t] by {}
                        assert(before.edges == old_node.edges);
                        lemma_replace_edge(old_node, *node, i as int, path, vocab, x);
                    }
                } else {
                    let mut edge = Edge::new_node(part, child);
                    proof {
                        assert((path + part@) + remaining@.skip((from + k) as int) =~= x.0) by {
                            assert forall|j: int| 0 <= j < x.0.len() implies ((path + part@) + remaining@.skip(
                                (from + k) as int,
                            ))[j] == x.0[j] by {
                                if j >= path.len() && j < path.len() + k {
                                    assert(remaining@[from + j - path.len()] == part@[j - path.len()]);
                                }
                            }
                        }
                    }
                    Trie::insert_at(&mut edge.node, remaining, from + k, suggestion, Ghost(path + part@), Ghost(vocab));
                    node.edges.insert(i, edge);
                    proof {
                        lemma_prefix_from_indices(part@, part@);
                        lemma_prefix_of_concat(path + part@, remaining@.skip((from + k) as int));
                        assert(node.edges@[i as int] == edge);
                        assert forall|t: int| 0 <= t < before.edges@.len() && t != i implies node.edges@[t]
                            == before.edges@[t] by {}
                        assert(before.edges == old_node.edges);
                        lemma_replace_edge(old_node, *node, i as int, path, vocab, x);
                    }
                }
            },
        }
    }
}

/// No edge below `node` has an empty label, and no two edges of one node
/// start with the same character.
pub(crate) open spec fn node_compressed(node: Node) -> bool
    decreases node,
{
    &&& labels_ok(node.edges@)
    &&& forall|i: int| 0 <= i < node.edges@.len() ==> node_compressed(#[trigger] node.edges@[i].node)
}

proof fn lemma_wf_compressed(node: Node, path: Seq<char>, vocab: Set<Entry>)
    requires
        node_wf(node, path, vocab),
    ensures
        node_compressed(node),
    decreases node,
{
    assert forall|i: int| 0 <= i < node.edges@.len() implies node_compressed(
        #[trigger] node.edges@[i].node,
    ) by {
        lemma_wf_compressed(node.edges@[i].node, path + node.edges@[i].part@, vocab);
    }
}

/// The entries that a list of `(word, score)` pairs stands for.
pub open spec fn vocab_of(input: Seq<(&str, u32)>) -> Set<Entry> {
    input.map_values(|p: (&str, u32)| (p.0@, p.1)).to_set()
}

impl Trie {
    /// The trie is well formed for the entries it holds.
    pub closed spec fn wf(&self) -> bool {
        &&& self.vocab@.finite()
        &&& node_wf(self.root, Seq::empty(), self.vocab@)
    }

    /// Every edge has a non-empty label, and the edges that leave one node
    /// start with distinct characters.
    pub closed spec fn compressed(&self) -> bool {
        node_compressed(self.root)
    }

    /// A well formed trie, whatever was inserted into it, is compressed.
    pub proof fn lemma_compressed(&self)
        requires
            self.wf(),
        ensures
            self.compressed(),
    {
        lemma_wf_compressed(self.root, Seq::empty(), self.vocab@);
    }

    /// The root node.
    pub closed spec fn spec_root(&self) -> Node {
        self.root
    }

    /// The root node.
    pub fn root(&self) -> (r: &Node)
        ensures
            *r == self.spec_root(),
    {
        &self.root
    }

    /// A trie over no entries, rooted at an empty node.
    fn from(root: Node) -> (r: Trie)
        requires
            root.edges@.len() == 0,
            root.suggestion is None,
            root.top_suggestions@.len() == 0,
        ensures
            r.wf(),
            r@ == Set::<Entry>::empty(),
    {
        let r = Trie { root, vocab: Ghost(Set::empty()) };
        proof {
            assert(entries(r.root.top_suggestions@) =~= Seq::empty());
        }
        r
    }

    /// Builds the trie of the given `(word, score)` pairs.
    pub fn new(input: &[(&str, u32)]) -> (r: Trie)
        ensures
            r.wf(),
            r@ == vocab_of(input@),
    {
        let root = Node::empty();
        let mut trie = Trie::from(root);
        let mut i: usize = 0;
        while i < input.len()
            invariant
                i <= input@.len(),
                trie.wf(),
                trie@ == vocab_of(input@.subrange(0, i as int)),
            decreases input.len() - i,
        {
            let (word, score) = input[i];
            trie.insert((word.to_owned(), score));
            proof {
                let f = |p: (&str, u32)| (p.0@, p.1);
                let a = input@.subrange(0, i as int);
                let b = input@.subrange(0, i + 1);
                assert(b =~= a.push(input@[i as int]));
                assert(b.map_values(f) =~= a.map_values(f).push(f(input@[i as int])));
                a.map_values(f).lemma_push_to_set_commute(f(input@[i as int]));
            }
            i = i + 1;
        }
        assert(input@.subrange(0, input@.len() as int) =~= input@);
        trie
    }

    /// Inserts a `(word, score)` pair.
    pub fn insert(&mut self, suggestion: (String, u32))
        requires
            old(self).wf(),
        ensures
            final(self).wf(),
            final(self)@ == old(self)@.insert((suggestion.0@, suggestion.1)),
    {
        let str = chars_of(suggestion.0.as_str());
        let entry = Rc::new(Suggestion::new(Rc::new(suggestion.0), suggestion.1));
        proof {
            assert(Seq::<char>::empty() + str@.skip(0) =~= entry@.0);
        }
        Trie::insert_at(&mut self.root, &str, 0, entry, Ghost(Seq::empty()), Ghost(self.vocab@));
        self.vocab = Ghost(self.vocab@.insert(entry@));
    }

    /// The best ranked entries whose word starts with `prefix`, at most `CAP`
    /// of them, highest ranked first.
    pub fn suggestions(&self, prefix: &str) -> (r: Vec<Rc<Suggestion>>)
        requires
            self.wf(),
        ensures
            entries(r@) == top_matches(self@, prefix@),
            r@.len() <= CAP,
            descending(entries(r@)),
    {
        let inp = chars_of(prefix);
        let r = Trie::walk(&self.root, &inp, 0, Ghost(Seq::empty()), Ghost(self.vocab@));
        proof {
            assert(Seq::<char>::empty() + inp@.skip(0) =~= prefix@);
            lemma_top_unique(entries(r@), matching(self.vocab@, prefix@), CAP as nat);
        }
        r
    }
}

} // verus!
