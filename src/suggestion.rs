//! A word with its popularity score, and the order in which suggestions rank.
use std::cmp::Ordering;
use std::rc::Rc;
use vstd::prelude::*;
use vstd::std_specs::iter::IteratorSpec;

verus! {

/// A word together with its popularity score.
#[derive(Debug)]
pub struct Suggestion {
    pub word: Rc<String>,
    pub(crate) score: u32,
}

/// A suggestion as a mathematical value: the word's characters and the score.
pub type Entry = (Seq<char>, u32);

impl View for Suggestion {
    type V = Entry;

    open(crate) spec fn view(&self) -> Entry {
        (self.word@, self.score)
    }
}

/// Lexicographic order on character sequences; a proper prefix comes first.
pub open spec fn word_lt(a: Seq<char>, b: Seq<char>) -> bool
    decreases a.len(),
{
    if a.len() == 0 {
        b.len() > 0
    } else if b.len() == 0 {
        false
    } else if a[0] != b[0] {
        a[0] < b[0]
    } else {
        word_lt(a.drop_first(), b.drop_first())
    }
}

/// `a` ranks strictly below `b`: a lower score, or an equal score and a smaller word.
pub open spec fn below(a: Entry, b: Entry) -> bool {
    a.1 < b.1 || (a.1 == b.1 && word_lt(a.0, b.0))
}

pub proof fn lemma_word_lt_irreflexive(a: Seq<char>)
    ensures
        !word_lt(a, a),
    decreases a.len(),
{
    if a.len() > 0 {
        lemma_word_lt_irreflexive(a.drop_first());
    }
}

pub proof fn lemma_word_lt_asymmetric(a: Seq<char>, b: Seq<char>)
    ensures
        !(word_lt(a, b) && word_lt(b, a)),
    decreases a.len(),
{
    if a.len() > 0 && b.len() > 0 && a[0] == b[0] {
        lemma_word_lt_asymmetric(a.drop_first(), b.drop_first());
    }
}

pub proof fn lemma_word_lt_transitive(a: Seq<char>, b: Seq<char>, c: Seq<char>)
    requires
        word_lt(a, b),
        word_lt(b, c),
    ensures
        word_lt(a, c),
    decreases a.len(),
{
    if a.len() > 0 && b.len() > 0 && c.len() > 0 && a[0] == b[0] && b[0] == c[0] {
        lemma_word_lt_transitive(a.drop_first(), b.drop_first(), c.drop_first());
    }
}

pub proof fn lemma_word_lt_total(a: Seq<char>, b: Seq<char>)
    ensures
        a == b || word_lt(a, b) || word_lt(b, a),
    decreases a.len(),
{
    if a.len() > 0 && b.len() > 0 && a[0] == b[0] {
        lemma_word_lt_total(a.drop_first(), b.drop_first());
        if a.drop_first() == b.drop_first() {
            assert(a =~= seq![a[0]] + a.drop_first());
            assert(b =~= seq![b[0]] + b.drop_first());
        }
    } else if a.len() == 0 && b.len() == 0 {
        assert(a =~= b);
    }
}

/// `below` is a strict total order on entries.
pub proof fn lemma_below_strict_total(a: Entry, b: Entry, c: Entry)
    ensures
        !below(a, a),
        !(below(a, b) && below(b, a)),
        below(a, b) && below(b, c) ==> below(a, c),
        a == b || below(a, b) || below(b, a),
{
    lemma_word_lt_irreflexive(a.0);
    lemma_word_lt_asymmetric(a.0, b.0);
    lemma_word_lt_total(a.0, b.0);
    if below(a, b) && below(b, c) && a.1 == b.1 && b.1 == c.1 {
        lemma_word_lt_transitive(a.0, b.0, c.0);
    }
}

impl Suggestion {
    pub(crate) fn new(word: Rc<String>, score: u32) -> (r: Suggestion)
        ensures
            r@ == (word@, score),
    {
        Suggestion { word, score }
    }

    /// The popularity score.
    pub fn score(&self) -> (r: u32)
        ensures
            r == self@.1,
    {
        self.score
    }

    /// Ranks `self` against `other`: by score, then by word.
    pub fn compare(&self, other: &Suggestion) -> (r: Ordering)
        ensures
            r == Ordering::Less <==> below(self@, other@),
            r == Ordering::Greater <==> below(other@, self@),
            r == Ordering::Equal <==> self@ == other@,
    {
        proof {
            lemma_below_strict_total(self@, other@, self@);
        }
        if self.score < other.score {
            Ordering::Less
        } else if self.score > other.score {
            Ordering::Greater
        } else {
            compare_words(self.word.as_str(), other.word.as_str())
        }
    }
}

/// Two suggestions are equal when both their words and their scores are.
impl PartialEq for Suggestion {
    fn eq(&self, other: &Suggestion) -> (r: bool) {
        self.score == other.score && *self.word == *other.word
    }
}

impl vstd::std_specs::cmp::PartialEqSpecImpl for Suggestion {
    open spec fn obeys_eq_spec() -> bool {
        true
    }

    open spec fn eq_spec(&self, other: &Suggestion) -> bool {
        self@ == other@
    }
}

/// Suggestions order by score, then by word.
impl PartialOrd for Suggestion {
    fn partial_cmp(&self, other: &Suggestion) -> (r: Option<Ordering>) {
        Some(self.compare(other))
    }
}

impl vstd::std_specs::cmp::PartialOrdSpecImpl for Suggestion {
    open spec fn obeys_partial_cmp_spec() -> bool {
        true
    }

    open spec fn partial_cmp_spec(&self, other: &Suggestion) -> Option<Ordering> {
        if below(self@, other@) {
            Some(Ordering::Less)
        } else if below(other@, self@) {
            Some(Ordering::Greater)
        } else {
            Some(Ordering::Equal)
        }
    }
}

/// The entries that a list of shared suggestions stands for.
pub open spec fn entries(c: Seq<Rc<Suggestion>>) -> Seq<Entry> {
    c.map_values(|s: Rc<Suggestion>| s@)
}

/// The characters of `s`, one by one.
pub(crate) fn chars_of(s: &str) -> (r: Vec<char>)
    ensures
        r@ == s@,
{
    let mut it = s.chars();
    let mut r: Vec<char> = Vec::new();
    loop
        invariant
            r@ + it.remaining() == s@,
        decreases s@.len() - r@.len(),
    {
        match it.next() {
            None => {
                assert(r@ =~= s@);
                return r;
            },
            Some(c) => {
                r.push(c);
                assert(r@ + it.remaining() =~= s@);
            },
        }
    }
}

/// `s` starts with the characters `prefix`.
pub(crate) fn starts_with(s: &str, prefix: &Vec<char>) -> (r: bool)
    ensures
        r == prefix@.is_prefix_of(s@),
{
    let mut it = s.chars();
    let mut i: usize = 0;
    while i < prefix.len()
        invariant
            i <= prefix@.len(),
            i <= s@.len(),
            it.remaining() == s@.skip(i as int),
            prefix@.subrange(0, i as int) == s@.subrange(0, i as int),
        decreases prefix@.len() - i,
    {
        match it.next() {
            None => {
                return false;
            },
            Some(c) => {
                if c != prefix[i] {
                    assert(s@[i as int] == c);
                    return false;
                }
                proof {
                    assert(s@.skip(i as int).drop_first() =~= s@.skip(i + 1));
                    assert(prefix@.subrange(0, i + 1) =~= prefix@.subrange(0, i as int).push(c));
                    assert(s@.subrange(0, i + 1) =~= s@.subrange(0, i as int).push(c));
                }
                i = i + 1;
            },
        }
    }
    assert(prefix@.subrange(0, i as int) =~= prefix@);
    true
}

/// Compares two strings character by character.
fn compare_words(a: &str, b: &str) -> (r: Ordering)
    ensures
        r == Ordering::Less <==> word_lt(a@, b@),
        r == Ordering::Greater <==> word_lt(b@, a@),
        r == Ordering::Equal <==> a@ == b@,
{
    proof {
        lemma_word_lt_irreflexive(a@);
        lemma_word_lt_asymmetric(a@, b@);
        lemma_word_lt_total(a@, b@);
    }
    let mut ia = a.chars();
    let mut ib = b.chars();
    let ghost mut i: int = 0;
    assert(a@.skip(0) =~= a@);
    assert(b@.skip(0) =~= b@);
    loop
        invariant
            0 <= i <= a@.len(),
            i <= b@.len(),
            a@.subrange(0, i) == b@.subrange(0, i),
            ia.remaining() == a@.skip(i),
            ib.remaining() == b@.skip(i),
            word_lt(a@, b@) == word_lt(a@.skip(i), b@.skip(i)),
            word_lt(b@, a@) == word_lt(b@.skip(i), a@.skip(i)),
        decreases a@.len() - i,
    {
        let ca = ia.next();
        let cb = ib.next();
        match (ca, cb) {
            (None, None) => {
                assert(a@ =~= a@.subrange(0, i));
                assert(b@ =~= b@.subrange(0, i));
                return Ordering::Equal;
            },
            (None, Some(_)) => {
                return Ordering::Less;
            },
            (Some(_), None) => {
                return Ordering::Greater;
            },
            (Some(x), Some(y)) => {
                if x < y {
                    return Ordering::Less;
                }
                if y < x {
                    return Ordering::Greater;
                }
                proof {
                    assert(a@.skip(i).drop_first() =~= a@.skip(i + 1));
                    assert(b@.skip(i).drop_first() =~= b@.skip(i + 1));
                    assert(a@.subrange(0, i + 1) =~= a@.subrange(0, i).push(x));
                    assert(b@.subrange(0, i + 1) =~= b@.subrange(0, i).push(y));
                    i = i + 1;
                }
            },
        }
    }
}

} // verus!
