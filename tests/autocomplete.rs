use completion::naive::NaiveAutoComplete;
use completion::trie::Trie;
use completion::{AutoCompletor, Suggestion};
use std::rc::Rc;

fn words(suggestions: &[Rc<Suggestion>]) -> Vec<String> {
    suggestions.iter().map(|s| (*s.word).clone()).collect()
}

fn assert_suggestions(prefix: &str, expected: Vec<&str>, trie: &Trie) {
    let actual = words(&trie.suggestions(prefix));
    assert_eq!(
        expected, actual,
        "\nSuggestions for '{}' expected ={:?}, actual ={:?}",
        prefix, &expected, &actual
    );
}

fn entry(s: &Rc<Suggestion>) -> (String, u32) {
    ((*s.word).clone(), s.score())
}

fn label(part: &[char]) -> String {
    part.iter().collect()
}

const VOCAB: [(&str, u32); 8] = [
    ("car", 1),
    ("carpet", 2),
    ("carpenter", 3),
    ("cocoon", 5),
    ("cain", 3),
    ("cameo", 3),
    ("ball", 4),
    ("baller", 5),
];

#[test]
fn trie_vs_naive_test() {
    let data = [
        ("car", 1),
        ("carpet", 2),
        ("carpenter", 3),
        ("cocoon", 5),
        ("cain", 2),
        ("aba", 3),
        ("acas", 4),
        ("ballcdcder", 5),
        ("caa", 5),
        ("cascasin", 3),
        ("cacs", 3),
        ("bascascll", 4),
        ("basller", 5),
        ("cdacs", 3),
        ("dascascll", 4),
        ("dasller", 5),
        ("eeacs", 3),
        ("escascll", 4),
        ("eesller", 5),
    ];
    let prefixes = ["c", "a", "d", "e", "ca", "da", "es", "ba", "ac", "cd"];
    let trie = Trie::new(&data);
    let naive = NaiveAutoComplete::new(&data);
    for prefix in prefixes.iter() {
        let t = trie.suggestions(prefix);
        let n = naive.suggestions(prefix);
        assert_eq!(
            t, n,
            "\nPrefix: {}\ntrie suggestions: {:#?} != naive suggestions:{:#?} ",
            prefix, t, n
        );
    }
}

#[test]
fn naive_suggestions_test() {
    let auto_complete = NaiveAutoComplete::new(&VOCAB);
    assert_eq!(words(&auto_complete.suggestions("car")), ["carpenter", "carpet", "car"]);
    assert_eq!(words(&auto_complete.suggestions("carp")), ["carpenter", "carpet"]);
    assert_eq!(
        words(&auto_complete.suggestions("c")),
        ["cocoon", "carpenter", "cameo", "cain", "carpet"]
    );
    assert_eq!(words(&auto_complete.suggestions("bal")), ["baller", "ball"]);
    assert_eq!(words(&auto_complete.suggestions("balle")), ["baller"]);
}

#[test]
fn trie_structural_test() {
    let actual = Trie::new(&[("car", 1), ("carpet", 2), ("carpenter", 3)]);

    let root = actual.root();
    assert!(root.terminal().is_none());
    assert_eq!(words(&root.sorted_suggestions()), ["carpenter", "carpet", "car"]);
    assert_eq!(root.edge_count(), 1);

    let car_edge = root.edge('c').unwrap();
    assert_eq!(label(car_edge.part()), "car");
    let car = car_edge.node();
    assert_eq!(entry(&car.terminal().unwrap()), ("car".to_string(), 1));
    assert_eq!(words(&car.sorted_suggestions()), ["carpenter", "carpet", "car"]);
    assert_eq!(car.edge_count(), 1);

    let carpe_edge = car.edge('p').unwrap();
    assert_eq!(label(carpe_edge.part()), "pe");
    let carpe = carpe_edge.node();
    assert!(carpe.terminal().is_none());
    assert_eq!(words(&carpe.sorted_suggestions()), ["carpenter", "carpet"]);
    assert_eq!(carpe.edge_count(), 2);

    let carpet_edge = carpe.edge('t').unwrap();
    assert_eq!(label(carpet_edge.part()), "t");
    let carpet = carpet_edge.node();
    assert_eq!(entry(&carpet.terminal().unwrap()), ("carpet".to_string(), 2));
    assert_eq!(words(&carpet.sorted_suggestions()), ["carpet"]);
    assert_eq!(carpet.edge_count(), 0);

    let carpenter_edge = carpe.edge('n').unwrap();
    assert_eq!(label(carpenter_edge.part()), "nter");
    let carpenter = carpenter_edge.node();
    assert_eq!(entry(&carpenter.terminal().unwrap()), ("carpenter".to_string(), 3));
    assert_eq!(words(&carpenter.sorted_suggestions()), ["carpenter"]);
    assert_eq!(carpenter.edge_count(), 0);
}

#[test]
fn trie_suggestions_test() {
    let trie = Trie::new(&VOCAB);
    assert_suggestions("car", vec!["carpenter", "carpet", "car"], &trie);
    assert_suggestions("carp", vec!["carpenter", "carpet"], &trie);
    assert_suggestions("carpe", vec!["carpenter", "carpet"], &trie);
    assert_suggestions("carpeo", vec![], &trie);
    assert_suggestions("c", vec!["cocoon", "carpenter", "cameo", "cain", "carpet"], &trie);
    assert_suggestions("carpen", vec!["carpenter"], &trie);
    assert_suggestions("carpet", vec!["carpet"], &trie);
    assert_suggestions("bali", vec![], &trie);
    assert_suggestions("balle", vec!["baller"], &trie);
    assert_suggestions("ball", vec!["baller", "ball"], &trie);
    assert_suggestions("", vec!["cocoon", "baller", "ball", "carpenter", "cameo"], &trie);
}
