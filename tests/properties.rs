use completion::internal::Node;
use completion::naive::NaiveAutoComplete;
use completion::trie::Trie;
use completion::{AutoCompletor, Suggestion};
use std::cmp::Ordering;
use std::rc::Rc;

fn words(suggestions: &[Rc<Suggestion>]) -> Vec<String> {
    suggestions.iter().map(|s| (*s.word).clone()).collect()
}

fn pairs(suggestions: &[Rc<Suggestion>]) -> Vec<(String, u32)> {
    suggestions.iter().map(|s| ((*s.word).clone(), s.score())).collect()
}

const VOCAB: [(&str, u32); 8] = [
    ("car", 1),
    ("carpet", 2),
    ("carpenter", 3),
    ("cocoon", 5),
    ("cain", 3),
    ("cameo", 3),
    ("ball", 4),
    ("baller", 5),
];

const PREFIXES: [&str; 16] = [
    "", "c", "ca", "car", "carp", "carpe", "carpen", "carpet", "carpeo", "b", "ba", "bal", "balle",
    "bali", "z", "cocoonx",
];

fn check_compressed(node: &Node) {
    let mut firsts: Vec<char> = Vec::new();
    for c in "abcdefghijklmnopqrstuvwxyzéè".chars() {
        if let Some(edge) = node.edge(c) {
            assert!(!edge.part().is_empty());
            assert_eq!(edge.part()[0], c);
            firsts.push(c);
            check_compressed(edge.node());
        }
    }
    assert_eq!(firsts.len(), node.edge_count());
}

fn strictly_descending(s: &[Rc<Suggestion>]) -> bool {
    s.windows(2).all(|w| w[1].compare(&w[0]) == Ordering::Less)
}

#[test]
fn oracle_agreement_on_every_prefix() {
    let trie = Trie::new(&VOCAB);
    let naive = NaiveAutoComplete::new(&VOCAB);
    for p in PREFIXES.iter() {
        assert_eq!(trie.suggestions(p), naive.suggestions(p), "prefix {:?}", p);
    }
}

#[test]
fn oracle_agreement_on_an_empty_vocabulary() {
    let trie = Trie::new(&[]);
    let naive = NaiveAutoComplete::new(&[]);
    assert!(trie.suggestions("").is_empty());
    assert!(naive.suggestions("").is_empty());
    assert!(trie.suggestions("a").is_empty());
}

#[test]
fn cap_holds_for_a_large_vocabulary() {
    let owned: Vec<(String, u32)> = (0..40u32).map(|i| (format!("w{:02}", i), i % 7)).collect();
    let input: Vec<(&str, u32)> = owned.iter().map(|(w, s)| (&w[..], *s)).collect();
    let trie = Trie::new(&input);
    let naive = NaiveAutoComplete::new(&input);
    for p in ["", "w", "w0", "w1", "w3", "w39", "x"].iter() {
        let t = trie.suggestions(p);
        assert!(t.len() <= 5);
        assert_eq!(t, naive.suggestions(p));
    }
    assert_eq!(trie.suggestions("").len(), 5);
    assert_eq!(
        words(&trie.suggestions("")),
        ["w34", "w27", "w20", "w13", "w06"]
    );
}

#[test]
fn ranking_breaks_ties_by_descending_word() {
    let trie = Trie::new(&[("ab", 3), ("aa", 3), ("ac", 3), ("ad", 1)]);
    let got = trie.suggestions("a");
    assert_eq!(words(&got), ["ac", "ab", "aa", "ad"]);
    assert!(strictly_descending(&got));
    let naive = NaiveAutoComplete::new(&[("ab", 3), ("aa", 3), ("ac", 3), ("ad", 1)]);
    assert_eq!(words(&naive.suggestions("a")), ["ac", "ab", "aa", "ad"]);
}

#[test]
fn results_are_strictly_descending() {
    let trie = Trie::new(&VOCAB);
    for p in PREFIXES.iter() {
        assert!(strictly_descending(&trie.suggestions(p)));
    }
}

#[test]
fn trie_stays_compressed_after_insertions() {
    let mut trie = Trie::new(&VOCAB);
    check_compressed(trie.root());
    for (w, s) in [("ca", 2), ("c", 1), ("carpets", 9), ("", 4), ("b", 2)].iter() {
        trie.insert((w.to_string(), *s));
        check_compressed(trie.root());
    }
}

#[test]
fn insertion_only_lets_the_new_word_in() {
    let mut trie = Trie::new(&VOCAB);
    assert_eq!(
        words(&trie.suggestions("c")),
        ["cocoon", "carpenter", "cameo", "cain", "carpet"]
    );
    trie.insert(("cab".to_string(), 4));
    assert_eq!(
        words(&trie.suggestions("c")),
        ["cocoon", "cab", "carpenter", "cameo", "cain"]
    );
    // a word outside the prefix changes nothing
    trie.insert(("dog".to_string(), 9));
    assert_eq!(
        words(&trie.suggestions("c")),
        ["cocoon", "cab", "carpenter", "cameo", "cain"]
    );
    // a word ranked below a full list is not let in
    trie.insert(("cat".to_string(), 0));
    assert_eq!(
        words(&trie.suggestions("c")),
        ["cocoon", "cab", "carpenter", "cameo", "cain"]
    );
    assert_eq!(words(&trie.suggestions("cat")), ["cat"]);
}

#[test]
fn scenario_car_prefix() {
    let trie = Trie::new(&[("car", 1), ("carpet", 2), ("carpenter", 3)]);
    assert_eq!(words(&trie.suggestions("car")), ["carpenter", "carpet", "car"]);
}

#[test]
fn scenario_single_letter_prefix() {
    let trie = Trie::new(&VOCAB);
    let naive = NaiveAutoComplete::new(&VOCAB);
    let expected = ["cocoon", "carpenter", "cameo", "cain", "carpet"];
    assert_eq!(words(&trie.suggestions("c")), expected);
    assert_eq!(words(&naive.suggestions("c")), expected);
}

#[test]
fn scenario_no_match() {
    let trie = Trie::new(&VOCAB);
    let naive = NaiveAutoComplete::new(&VOCAB);
    assert!(trie.suggestions("carpeo").is_empty());
    assert!(naive.suggestions("carpeo").is_empty());
}

#[test]
fn scenario_empty_prefix() {
    let trie = Trie::new(&VOCAB);
    let naive = NaiveAutoComplete::new(&VOCAB);
    let expected = ["cocoon", "baller", "ball", "carpenter", "cameo"];
    assert_eq!(words(&trie.suggestions("")), expected);
    assert_eq!(words(&naive.suggestions("")), expected);
}

#[test]
fn scenario_prefix_inside_a_label() {
    let trie = Trie::new(&VOCAB);
    let naive = NaiveAutoComplete::new(&VOCAB);
    assert_eq!(words(&trie.suggestions("balle")), ["baller"]);
    assert_eq!(words(&naive.suggestions("balle")), ["baller"]);
}

#[test]
fn duplicate_pairs_count_once() {
    let data = [("car", 1), ("car", 1), ("cart", 2), ("car", 1)];
    let trie = Trie::new(&data);
    let naive = NaiveAutoComplete::new(&data);
    assert_eq!(pairs(&trie.suggestions("c")), [("cart".to_string(), 2), ("car".to_string(), 1)]);
    assert_eq!(trie.suggestions("c"), naive.suggestions("c"));
}

#[test]
fn duplicate_pair_in_a_full_cache_keeps_five() {
    let data = [("a1", 1), ("a2", 2), ("a3", 3), ("a4", 4), ("a5", 5), ("a5", 5), ("a0", 0)];
    let trie = Trie::new(&data);
    let naive = NaiveAutoComplete::new(&data);
    assert_eq!(words(&trie.suggestions("a")), ["a5", "a4", "a3", "a2", "a1"]);
    assert_eq!(trie.suggestions("a"), naive.suggestions("a"));
}

#[test]
fn same_word_with_two_scores_is_kept_twice() {
    let data = [("car", 1), ("car", 7)];
    let trie = Trie::new(&data);
    let naive = NaiveAutoComplete::new(&data);
    assert_eq!(
        pairs(&trie.suggestions("ca")),
        [("car".to_string(), 7), ("car".to_string(), 1)]
    );
    assert_eq!(trie.suggestions("ca"), naive.suggestions("ca"));
}

#[test]
fn empty_word_matches_only_the_empty_prefix() {
    let mut trie = Trie::new(&[("a", 1)]);
    trie.insert((String::new(), 9));
    assert_eq!(words(&trie.suggestions("")), ["", "a"]);
    assert_eq!(words(&trie.suggestions("a")), ["a"]);
    let naive = NaiveAutoComplete::new(&[("a", 1), ("", 9)]);
    assert_eq!(trie.suggestions(""), naive.suggestions(""));
}

#[test]
fn word_ending_inside_a_label_splits_it() {
    let mut trie = Trie::new(&[("carpet", 2)]);
    trie.insert(("car".to_string(), 1));
    let root = trie.root();
    let car = root.edge('c').unwrap();
    assert_eq!(car.part().iter().collect::<String>(), "car");
    assert_eq!(car.node().terminal().unwrap().score(), 1);
    let pet = car.node().edge('p').unwrap();
    assert_eq!(pet.part().iter().collect::<String>(), "pet");
    assert_eq!(words(&trie.suggestions("ca")), ["carpet", "car"]);
}

#[test]
fn characters_beyond_ascii_are_matched_whole() {
    let data = [("café", 2), ("cafè", 1), ("cafe", 3)];
    let trie = Trie::new(&data);
    let naive = NaiveAutoComplete::new(&data);
    assert_eq!(words(&trie.suggestions("caf")), ["cafe", "café", "cafè"]);
    assert_eq!(words(&trie.suggestions("café")), ["café"]);
    assert!(trie.suggestions("cafë").is_empty());
    assert_eq!(trie.suggestions("caf"), naive.suggestions("caf"));
    check_compressed(trie.root());
}

#[test]
fn both_indexes_answer_through_the_trait() {
    fn ask(index: &dyn AutoCompletor, prefix: &str) -> Vec<String> {
        words(&index.suggestions(prefix))
    }
    let trie = Trie::new(&VOCAB);
    let naive = NaiveAutoComplete::new(&VOCAB);
    assert_eq!(ask(&trie, "ba"), ["baller", "ball"]);
    assert_eq!(ask(&naive, "ba"), ["baller", "ball"]);
}

#[test]
fn equality_needs_word_and_score() {
    let trie = Trie::new(&[("car", 1), ("car", 2), ("cab", 1)]);
    let got = trie.suggestions("ca");
    assert_eq!(pairs(&got), [("car".to_string(), 2), ("car".to_string(), 1), ("cab".to_string(), 1)]);
    assert_ne!(*got[0], *got[1]);
    assert_eq!(got[0].compare(&got[1]), Ordering::Greater);
    assert_eq!(got[2].compare(&got[1]), Ordering::Less);
    assert_eq!(got[1].compare(&got[1]), Ordering::Equal);
    assert_eq!(*got[1], *got[1]);
}

#[test]
fn suggestions_compare_with_operators() {
    let trie = Trie::new(&[("b", 1), ("a", 1), ("c", 2)]);
    let got = trie.suggestions("");
    assert_eq!(words(&got), ["c", "b", "a"]);
    assert!(*got[1] < *got[0]);
    assert!(*got[2] < *got[1]);
    assert!(*got[0] > *got[2]);
    assert_eq!(got[0].score(), 2);
}
