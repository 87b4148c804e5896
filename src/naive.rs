//! The plain index: every suggestion in one list, sorted from the highest
//! ranked down, scanned in full for each query.
use crate::ranking::{descending, has_prefix, is_top, lemma_top_unique, matching, top_matches, CAP};
use crate::suggestion::{below, chars_of, entries, starts_with, lemma_below_strict_total, Entry, Suggestion};
use crate::internal::share;
use crate::trie::{vocab_of, Trie};
use std::cmp::Ordering;
use std::rc::Rc;
use vstd::prelude::*;

verus! {

/// The first `n` entries of `all`, in order, whose word starts with `prefix`.
pub open spec fn first_matches(all: Seq<Entry>, prefix: Seq<char>, n: nat) -> Seq<Entry>
    decreases all.len(),
{
    if all.len() == 0 || n == 0 {
        Seq::empty()
    } else if has_prefix(all[0], prefix) {
        seq![all[0]] + first_matches(all.drop_first(), prefix, (n - 1) as nat)
    } else {
        first_matches(all.drop_first(), prefix, n)
    }
}

/// Scanning a descending list for the first `n` matches finds the `n` best
/// ranked matches of the set that the list holds.
pub proof fn lemma_first_matches_is_top(all: Seq<Entry>, prefix: Seq<char>, n: nat)
    requires
        descending(all),
    ensures
        is_top(first_matches(all, prefix, n), matching(all.to_set(), prefix), n),
    decreases all.len(),
{
    let r = first_matches(all, prefix, n);
    let s = matching(all.to_set(), prefix);
    if all.len() == 0 {
        assert(s =~= Set::empty());
    } else if n == 0 {
    } else {
        let a = all[0];
        let rest = all.drop_first();
        assert(descending(rest)) by {
            assert forall|i: int, j: int| 0 <= i < j < rest.len() implies below(
                #[trigger] rest[j],
                #[trigger] rest[i],
            ) by {
                assert(rest[j] == all[j + 1] && rest[i] == all[i + 1]);
            }
        }
        // `a` ranks above everything after it
        assert forall|y: Entry| #[trigger] rest.to_set().contains(y) implies below(y, a) by {
            let j = choose|j: int| 0 <= j < rest.len() && rest[j] == y;
            assert(all[j + 1] == y);
        }
        assert(all.to_set() =~= rest.to_set().insert(a)) by {
            assert forall|y: Entry| #[trigger] all.to_set().contains(y) implies rest.to_set().insert(
                a,
            ).contains(y) by {
                let j = choose|j: int| 0 <= j < all.len() && all[j] == y;
                if j > 0 {
                    assert(rest[j - 1] == y);
                }
            }
            assert forall|y: Entry| #[trigger] rest.to_set().contains(y) implies all.to_set().contains(
                y,
            ) by {
                let j = choose|j: int| 0 <= j < rest.len() && rest[j] == y;
                assert(all[j + 1] == y);
            }
            assert(all[0] == a);
        }
        lemma_below_strict_total(a, a, a);
        let s2 = matching(rest.to_set(), prefix);
        if has_prefix(a, prefix) {
            lemma_first_matches_is_top(rest, prefix, (n - 1) as nat);
            let r2 = first_matches(rest, prefix, (n - 1) as nat);
            assert(r == seq![a] + r2);
            assert(s =~= s2.insert(a));
            assert forall|i: int| 0 <= i < r.len() implies s.contains(#[trigger] r[i]) by {
                if i > 0 {
                    assert(r[i] == r2[i - 1]);
                }
            }
            assert forall|i: int, j: int| 0 <= i < j < r.len() implies below(
                #[trigger] r[j],
                #[trigger] r[i],
            ) by {
                assert(r[j] == r2[j - 1]);
                assert(s2.contains(r2[j - 1]));
                if i > 0 {
                    assert(r[i] == r2[i - 1]);
                }
            }
            assert forall|x: Entry| #[trigger] s.contains(x) && r.len() < n implies r.contains(x) by {
                if x == a {
                    assert(r[0] == x);
                } else {
                    assert(s2.contains(x));
                    let j = choose|j: int| 0 <= j < r2.len() && r2[j] == x;
                    assert(r[j + 1] == x);
                }
            }
            assert forall|x: Entry, i: int|
                0 <= i < r.len() && #[trigger] s.contains(x) && !r.contains(x) implies below(
                x,
                #[trigger] r[i],
            ) by {
                assert(x != a) by {
                    assert(r[0] == a);
                }
                assert(s2.contains(x));
                if r2.contains(x) {
                    let j = choose|j: int| 0 <= j < r2.len() && r2[j] == x;
                    assert(r[j + 1] == x);
                }
                if i > 0 {
                    assert(r[i] == r2[i - 1]);
                }
            }
        } else {
            lemma_first_matches_is_top(rest, prefix, n);
            assert(s =~= s2);
        }
    }
}

/// Scanning a descending list gives the same answer as `top_matches`.
pub proof fn lemma_scan_agrees(all: Seq<Entry>, prefix: Seq<char>)
    requires
        descending(all),
    ensures
        first_matches(all, prefix, CAP as nat) == top_matches(all.to_set(), prefix),
{
    lemma_first_matches_is_top(all, prefix, CAP as nat);
    lemma_top_unique(first_matches(all, prefix, CAP as nat), matching(all.to_set(), prefix), CAP as nat);
}

/// The trie and the plain index that hold the same entries give the same
/// answer to every query: the trie's best matches are the plain index's
/// first matches in its sorted list.
pub proof fn lemma_oracle_agreement(t: &Trie, n: &NaiveAutoComplete, prefix: Seq<char>)
    requires
        t.wf(),
        n.wf(),
        t@ == n@,
    ensures
        top_matches(t@, prefix) == first_matches(n.ranked(), prefix, CAP as nat),
{
    lemma_scan_agrees(n.ranked(), prefix);
}

/// The plain index.
#[derive(Debug)]
pub struct NaiveAutoComplete {
    suggestions: Vec<Rc<Suggestion>>,
}

impl View for NaiveAutoComplete {
    type V = Set<Entry>;

    /// The entries the index holds.
    closed spec fn view(&self) -> Set<Entry> {
        entries(self.suggestions@).to_set()
    }
}

impl NaiveAutoComplete {
    /// The entries in the order they are scanned.
    pub closed spec fn ranked(&self) -> Seq<Entry> {
        entries(self.suggestions@)
    }

    /// The list is sorted strictly from the highest ranked down.
    pub closed spec fn wf(&self) -> bool {
        descending(entries(self.suggestions@))
    }

    /// Builds the index of the given `(word, score)` pairs.
    pub fn new(suggestions: &[(&str, u32)]) -> (r: NaiveAutoComplete)
        ensures
            r.wf(),
            r@ == vocab_of(suggestions@),
    {
        let mut all: Vec<Rc<Suggestion>> = Vec::new();
        let mut i: usize = 0;
        proof {
            assert(entries(all@).to_set() =~= vocab_of(suggestions@.subrange(0, 0)));
        }
        while i < suggestions.len()
            invariant
                i <= suggestions@.len(),
                descending(entries(all@)),
                entries(all@).to_set() == vocab_of(suggestions@.subrange(0, i as int)),
            decreases suggestions.len() - i,
        {
            let (word, score) = suggestions[i];
            let s = Rc::new(Suggestion::new(Rc::new(word.to_owned()), score));
            insert_sorted(&mut all, s);
            proof {
                let f = |p: (&str, u32)| (p.0@, p.1);
                let a = suggestions@.subrange(0, i as int);
                let b = suggestions@.subrange(0, i + 1);
                assert(b =~= a.push(suggestions@[i as int]));
                assert(b.map_values(f) =~= a.map_values(f).push(f(suggestions@[i as int])));
                a.map_values(f).lemma_push_to_set_commute(f(suggestions@[i as int]));
            }
            i = i + 1;
        }
        assert(suggestions@.subrange(0, suggestions@.len() as int) =~= suggestions@);
        NaiveAutoComplete { suggestions: all }
    }

    /// The first `CAP` entries of the sorted list whose word starts with
    /// `prefix`; they are the best ranked matches.
    pub fn suggestions(&self, prefix: &str) -> (r: Vec<Rc<Suggestion>>)
        requires
            self.wf(),
        ensures
            entries(r@) == first_matches(self.ranked(), prefix@, CAP as nat),
            entries(r@) == top_matches(self@, prefix@),
            r@.len() <= CAP,
            descending(entries(r@)),
    {
        let p = chars_of(prefix);
        let ghost all = entries(self.suggestions@);
        let mut r: Vec<Rc<Suggestion>> = Vec::new();
        let mut i: usize = 0;
        assert(all.skip(0) =~= all);
        assert(entries(r@) + first_matches(all, prefix@, CAP as nat) =~= first_matches(all, prefix@, CAP as nat));
        while i < self.suggestions.len() && r.len() < CAP
            invariant
                all == entries(self.suggestions@),
                p@ == prefix@,
                i <= all.len(),
                r@.len() <= CAP,
                entries(r@) + first_matches(all.skip(i as int), prefix@, (CAP - r@.len()) as nat)
                    == first_matches(all, prefix@, CAP as nat),
            decreases all.len() - i,
        {
            let ghost tail = all.skip(i as int);
            assert(tail[0] == self.suggestions@[i as int]@);
            assert(tail.drop_first() =~= all.skip(i + 1));
            if starts_with(self.suggestions[i].word.as_str(), &p) {
                let ghost before = entries(r@);
                r.push(share(&self.suggestions[i]));
                assert(entries(r@) =~= before.push(tail[0]));
                assert(seq![tail[0]] + first_matches(all.skip(i + 1), prefix@, (CAP - r@.len()) as nat)
                    == first_matches(tail, prefix@, (CAP - before.len()) as nat));
                assert(entries(r@) + first_matches(all.skip(i + 1), prefix@, (CAP - r@.len()) as nat)
                    =~= before + (seq![tail[0]] + first_matches(all.skip(i + 1), prefix@, (CAP - r@.len()) as nat)));
            }
            i = i + 1;
        }
        proof {
            if i == all.len() {
                assert(all.skip(i as int).len() == 0);
            }
            assert(entries(r@) + Seq::empty() =~= entries(r@));
            lemma_scan_agrees(all, prefix@);
            lemma_first_matches_is_top(all, prefix@, CAP as nat);
        }
        r
    }
}

/// Inserts `s` into the descending list `v` at its place, unless it is there.
fn insert_sorted(v: &mut Vec<Rc<Suggestion>>, s: Rc<Suggestion>)
    requires
        descending(entries(old(v)@)),
    ensures
        descending(entries(final(v)@)),
        entries(final(v)@).to_set() == entries(old(v)@).to_set().insert(s@),
{
    let ghost x = s@;
    let ghost c = entries(v@);
    let mut lo: usize = 0;
    let mut hi: usize = v.len();
    while lo < hi
        invariant
            c == entries(v@),
            x == s@,
            descending(c),
            lo <= hi <= c.len(),
            forall|j: int| 0 <= j < lo ==> below(x, #[trigger] c[j]),
            forall|j: int| hi <= j < c.len() ==> !below(x, #[trigger] c[j]),
        decreases hi - lo,
    {
        let mid = lo + (hi - lo) / 2;
        assert(c[mid as int] == v@[mid as int]@);
        if matches!(s.compare(&v[mid]), Ordering::Less) {
            proof {
                assert forall|j: int| 0 <= j <= mid implies below(x, #[trigger] c[j]) by {
                    if j < mid {
                        lemma_below_strict_total(x, c[mid as int], c[j]);
                    }
                }
            }
            lo = mid + 1;
        } else {
            proof {
                assert forall|j: int| mid <= j < c.len() implies !below(x, #[trigger] c[j]) by {
                    if j > mid {
                        lemma_below_strict_total(c[j], c[mid as int], x);
                        lemma_below_strict_total(x, c[j], c[mid as int]);
                        lemma_below_strict_total(c[mid as int], x, c[j]);
                        lemma_below_strict_total(x, c[mid as int], c[j]);
                    }
                }
            }
            hi = mid;
        }
    }
    let pos = lo;
    if pos < v.len() {
        assert(c[pos as int] == v@[pos as int]@);
        if matches!(s.compare(&v[pos]), Ordering::Equal) {
            proof {
                assert(c.to_set().contains(x));
                assert(c.to_set().insert(x) =~= c.to_set());
            }
            return;
        }
        proof {
            lemma_below_strict_total(x, c[pos as int], x);
        }
    }
    v.insert(pos, s);
    proof {
        let r = entries(v@);
        assert(r =~= c.insert(pos as int, x));
        assert forall|a: int, b: int| 0 <= a < b < r.len() implies below(
            #[trigger] r[b],
            #[trigger] r[a],
        ) by {
            if a < pos && b < pos {
                assert(r[a] == c[a] && r[b] == c[b]);
            } else if a < pos && b == pos {
            } else if a < pos {
                assert(r[b] == c[b - 1] && r[a] == c[a]);
                lemma_below_strict_total(r[b], c[pos as int], x);
                if b - 1 > pos {
                    assert(below(c[b - 1], c[pos as int]));
                }
                lemma_below_strict_total(r[b], x, r[a]);
            } else if a == pos {
                assert(r[b] == c[b - 1]);
                if b - 1 > pos {
                    assert(below(c[b - 1], c[pos as int]));
                    lemma_below_strict_total(c[b - 1], c[pos as int], x);
                }
            } else {
                assert(r[b] == c[b - 1] && r[a] == c[a - 1]);
            }
        }
        assert(r.to_set() =~= c.to_set().insert(x)) by {
            assert forall|y: Entry| #[trigger] r.to_set().contains(y) implies c.to_set().insert(
                x,
            ).contains(y) by {
                let j = choose|j: int| 0 <= j < r.len() && r[j] == y;
                if j < pos {
                    assert(c[j] == y);
                } else if j > pos {
                    assert(c[j - 1] == y);
                }
            }
            assert forall|y: Entry| #[trigger] c.to_set().insert(x).contains(y) implies r.to_set().contains(
                y,
            ) by {
                if y == x {
                    assert(r[pos as int] == x);
                } else {
                    let j = choose|j: int| 0 <= j < c.len() && c[j] == y;
                    if j < pos {
                        assert(r[j] == y);
                    } else {
                        assert(r[j + 1] == y);
                    }
                }
            }
        }
    }
}

} // verus!
