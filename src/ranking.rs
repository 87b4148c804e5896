//! The ranked answer to a prefix query, stated over sets of entries.
use crate::suggestion::{below, lemma_below_strict_total, Entry};
use vstd::prelude::*;

verus! {

/// How many suggestions a query returns at most.
pub const CAP: usize = 5;

/// The word of `e` starts with `prefix`.
pub open spec fn has_prefix(e: Entry, prefix: Seq<char>) -> bool {
    prefix.is_prefix_of(e.0)
}

/// The entries of `vocab` whose word starts with `prefix`.
pub open spec fn matching(vocab: Set<Entry>, prefix: Seq<char>) -> Set<Entry> {
    vocab.filter(|e: Entry| has_prefix(e, prefix))
}

/// Strictly descending by rank: each entry ranks above every later one.
pub open spec fn descending(r: Seq<Entry>) -> bool {
    forall|i: int, j: int| 0 <= i < j < r.len() ==> below(#[trigger] r[j], #[trigger] r[i])
}

/// `m` belongs to `s` and ranks above every other member of `s`.
pub open spec fn is_best(s: Set<Entry>, m: Entry) -> bool {
    &&& s.contains(m)
    &&& forall|y: Entry| #[trigger] s.contains(y) && y != m ==> below(y, m)
}

/// The best ranked entry of `s` (meaningful when `s` is finite and not empty).
pub open spec fn best(s: Set<Entry>) -> Entry {
    choose|m: Entry| is_best(s, m)
}

/// The `n` best ranked entries of `s`, from the highest ranked down.
pub open spec fn top(s: Set<Entry>, n: nat) -> Seq<Entry>
    decreases n,
{
    if n == 0 || !(exists|m: Entry| is_best(s, m)) {
        Seq::empty()
    } else {
        seq![best(s)] + top(s.remove(best(s)), (n - 1) as nat)
    }
}

/// The answer to a query for `prefix` over `vocab`: its best `CAP` matches.
pub open spec fn top_matches(vocab: Set<Entry>, prefix: Seq<char>) -> Seq<Entry> {
    top(matching(vocab, prefix), CAP as nat)
}

/// `r` holds the `n` best entries of `s` (all of them if there are fewer),
/// in descending order.
pub open spec fn is_top(r: Seq<Entry>, s: Set<Entry>, n: nat) -> bool {
    &&& descending(r)
    &&& forall|i: int| 0 <= i < r.len() ==> s.contains(#[trigger] r[i])
    &&& r.len() <= n
    &&& r.len() < n ==> forall|x: Entry| #[trigger] s.contains(x) ==> r.contains(x)
    &&& forall|x: Entry, i: int|
        0 <= i < r.len() && #[trigger] s.contains(x) && !r.contains(x) ==> below(
            x,
            #[trigger] r[i],
        )
}

/// A descending list that satisfies `is_top` is the one `top` describes.
pub proof fn lemma_top_unique(r: Seq<Entry>, s: Set<Entry>, n: nat)
    requires
        is_top(r, s, n),
    ensures
        r == top(s, n),
    decreases n,
{
    if n == 0 {
        assert(r.len() == 0);
    } else if r.len() == 0 {
        assert forall|m: Entry| !is_best(s, m) by {
            if s.contains(m) {
                assert(r.contains(m));
            }
        }
    } else {
        let m = r[0];
        assert forall|y: Entry| #[trigger] s.contains(y) && y != m implies below(y, m) by {
            if r.contains(y) {
                let j = choose|j: int| 0 <= j < r.len() && r[j] == y;
                assert(j != 0);
            }
        }
        assert(is_best(s, m));
        let b = best(s);
        assert(is_best(s, b));
        if b != m {
            lemma_below_strict_total(b, m, b);
        }
        let s2 = s.remove(m);
        let r2 = r.drop_first();
        assert forall|i: int, j: int| 0 <= i < j < r2.len() implies below(
            #[trigger] r2[j],
            #[trigger] r2[i],
        ) by {
            assert(r2[j] == r[j + 1] && r2[i] == r[i + 1]);
        }
        assert forall|i: int| 0 <= i < r2.len() implies s2.contains(#[trigger] r2[i]) by {
            assert(r2[i] == r[i + 1]);
            assert(below(r[i + 1], r[0]));
            lemma_below_strict_total(r[0], r[0], r[0]);
        }
        assert forall|x: Entry| #[trigger] s2.contains(x) && r2.len() < n - 1 implies r2.contains(
            x,
        ) by {
            assert(r.contains(x));
            let j = choose|j: int| 0 <= j < r.len() && r[j] == x;
            assert(r2[j - 1] == x);
        }
        assert forall|x: Entry, i: int|
            0 <= i < r2.len() && #[trigger] s2.contains(x) && !r2.contains(x) implies below(
            x,
            #[trigger] r2[i],
        ) by {
            assert(r2[i] == r[i + 1]);
            if r.contains(x) {
                let j = choose|j: int| 0 <= j < r.len() && r[j] == x;
                assert(r2[j - 1] == x);
            }
        }
        lemma_top_unique(r2, s2, (n - 1) as nat);
        assert(r =~= seq![m] + r2);
    }
}

/// A finite set that is not empty has a best entry.
pub proof fn lemma_best_exists(s: Set<Entry>)
    requires
        s.finite(),
        s.len() > 0,
    ensures
        exists|m: Entry| is_best(s, m),
    decreases s.len(),
{
    let a = s.choose();
    let rest = s.remove(a);
    if rest.len() == 0 {
        assert forall|y: Entry| #[trigger] s.contains(y) && y != a implies below(y, a) by {
            assert(rest.contains(y));
        }
        assert(is_best(s, a));
    } else {
        lemma_best_exists(rest);
        let m = choose|m: Entry| is_best(rest, m);
        lemma_below_strict_total(a, m, a);
        if below(a, m) {
            assert forall|y: Entry| #[trigger] s.contains(y) && y != m implies below(y, m) by {
                if y != a {
                    assert(rest.contains(y));
                }
            }
            assert(is_best(s, m));
        } else {
            assert forall|y: Entry| #[trigger] s.contains(y) && y != a implies below(y, a) by {
                assert(rest.contains(y));
                if y != m {
                    lemma_below_strict_total(y, m, a);
                }
            }
            assert(is_best(s, a));
        }
    }
}

/// `top` of a finite set satisfies `is_top`.
pub proof fn lemma_top_is_top(s: Set<Entry>, n: nat)
    requires
        s.finite(),
    ensures
        is_top(top(s, n), s, n),
    decreases n,
{
    let r = top(s, n);
    if n == 0 {
    } else if s.len() == 0 {
        assert(!exists|m: Entry| is_best(s, m));
        assert(s =~= Set::empty());
    } else {
        lemma_best_exists(s);
        let m = best(s);
        let s2 = s.remove(m);
        lemma_top_is_top(s2, (n - 1) as nat);
        let r2 = top(s2, (n - 1) as nat);
        assert(r == seq![m] + r2);
        assert forall|i: int| 0 <= i < r.len() implies s.contains(#[trigger] r[i]) by {
            if i > 0 {
                assert(r[i] == r2[i - 1]);
            }
        }
        assert forall|i: int, j: int| 0 <= i < j < r.len() implies below(
            #[trigger] r[j],
            #[trigger] r[i],
        ) by {
            assert(r[j] == r2[j - 1]);
            assert(s2.contains(r2[j - 1]));
            if i > 0 {
                assert(r[i] == r2[i - 1]);
            }
        }
        assert forall|x: Entry| #[trigger] s.contains(x) && r.len() < n implies r.contains(x) by {
            if x == m {
                assert(r[0] == x);
            } else {
                assert(s2.contains(x));
                assert(r2.contains(x));
                let j = choose|j: int| 0 <= j < r2.len() && r2[j] == x;
                assert(r[j + 1] == x);
            }
        }
        assert forall|x: Entry, i: int|
            0 <= i < r.len() && #[trigger] s.contains(x) && !r.contains(x) implies below(
            x,
            #[trigger] r[i],
        ) by {
            assert(x != m) by {
                assert(r[0] == m);
            }
            assert(s2.contains(x));
            if r2.contains(x) {
                let j = choose|j: int| 0 <= j < r2.len() && r2[j] == x;
                assert(r[j + 1] == x);
            }
            if i > 0 {
                assert(r[i] == r2[i - 1]);
            }
        }
    }
}

/// A descending list holds no entry twice, so its set has as many members.
proof fn lemma_descending_set_len(r: Seq<Entry>)
    requires
        descending(r),
    ensures
        r.to_set().len() == r.len(),
        r.to_set().finite(),
{
    assert(r.no_duplicates()) by {
        assert forall|i: int, j: int| 0 <= i < r.len() && 0 <= j < r.len() && i != j implies r[i]
            != r[j] by {
            if i < j {
                lemma_below_strict_total(r[j], r[i], r[i]);
            } else {
                lemma_below_strict_total(r[i], r[j], r[j]);
            }
        }
    }
    r.unique_seq_to_set();
    vstd::seq_lib::seq_to_set_is_finite(r);
}

/// Adding one entry `x` to a finite set changes its `n` best entries at most
/// by letting `x` in: every entry of the new list was in the old one or is
/// `x`, and every old entry stays, but for the lowest of a full list.
pub proof fn lemma_top_insert(s: Set<Entry>, x: Entry, n: nat)
    requires
        s.finite(),
    ensures
        forall|e: Entry| #[trigger] top(s.insert(x), n).contains(e) ==> top(s, n).contains(e) || e == x,
        forall|i: int|
            0 <= i < top(s, n).len() && (top(s, n).len() < n || i < top(s, n).len() - 1) ==> top(
                s.insert(x),
                n,
            ).contains(#[trigger] top(s, n)[i]),
{
    let s2 = s.insert(x);
    let a = top(s, n);
    let b = top(s2, n);
    lemma_top_is_top(s, n);
    lemma_top_is_top(s2, n);
    lemma_descending_set_len(a);
    lemma_descending_set_len(b);
    assert forall|e: Entry| #[trigger] b.contains(e) implies a.contains(e) || e == x by {
        if !a.contains(e) && e != x {
            let j = choose|j: int| 0 <= j < b.len() && b[j] == e;
            assert(s.contains(e));
            assert(a.len() == n);
            assert forall|i: int| 0 <= i < a.len() implies b.contains(#[trigger] a[i]) by {
                assert(below(e, a[i]));
                if !b.contains(a[i]) {
                    assert(s2.contains(a[i]));
                    assert(below(a[i], b[j]));
                    lemma_below_strict_total(e, a[i], e);
                }
            }
            assert(a.to_set().insert(e).subset_of(b.to_set()));
            vstd::set_lib::lemma_len_subset(a.to_set().insert(e), b.to_set());
            assert(!a.to_set().contains(e));
        }
    }
    assert forall|i: int|
        0 <= i < a.len() && (a.len() < n || i < a.len() - 1) implies b.contains(#[trigger] a[i]) by {
        if !b.contains(a[i]) {
            assert(s2.contains(a[i]));
            if b.len() < n {
                assert(b.contains(a[i]));
            }
            let low = a.subrange(0, i).to_set().insert(x);
            assert forall|e: Entry| #[trigger] b.to_set().contains(e) implies low.contains(e) by {
                if e != x {
                    let j = choose|j: int| 0 <= j < b.len() && b[j] == e;
                    assert(below(a[i], e));
                    assert(a.contains(e));
                    let t = choose|t: int| 0 <= t < a.len() && a[t] == e;
                    if t > i {
                        lemma_below_strict_total(a[t], a[i], a[t]);
                    }
                    if t == i {
                        lemma_below_strict_total(e, e, e);
                    }
                    assert(a.subrange(0, i)[t] == e);
                }
            }
            a.subrange(0, i).lemma_cardinality_of_set();
            vstd::seq_lib::seq_to_set_is_finite(a.subrange(0, i));
            vstd::set_lib::lemma_len_subset(b.to_set(), low);
        }
    }
}

/// The query answer changes by at most letting the new entry in, when one
/// entry is added to a vocabulary; an entry whose word does not start with
/// the prefix changes nothing.
pub proof fn lemma_insert_monotone(vocab: Set<Entry>, x: Entry, prefix: Seq<char>)
    requires
        vocab.finite(),
    ensures
        forall|e: Entry| #[trigger] top_matches(vocab.insert(x), prefix).contains(e)
            ==> top_matches(vocab, prefix).contains(e) || e == x,
        forall|i: int|
            0 <= i < top_matches(vocab, prefix).len() && (top_matches(vocab, prefix).len() < CAP || i
                < top_matches(vocab, prefix).len() - 1) ==> top_matches(vocab.insert(x), prefix).contains(
                #[trigger] top_matches(vocab, prefix)[i],
            ),
        !has_prefix(x, prefix) ==> top_matches(vocab.insert(x), prefix) == top_matches(vocab, prefix),
{
    let m = matching(vocab, prefix);
    vstd::set_lib::lemma_len_subset(m, vocab);
    if has_prefix(x, prefix) {
        assert(matching(vocab.insert(x), prefix) =~= m.insert(x));
        lemma_top_insert(m, x, CAP as nat);
    } else {
        assert(matching(vocab.insert(x), prefix) =~= m);
    }
}

} // verus!
