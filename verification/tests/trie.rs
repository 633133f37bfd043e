use words::trie::Trie;
use words::word::Word;

#[test]
fn basic_case() {
    let mut tr = Trie::default();
    tr.append("ba");
    tr.append("bad");
    tr.append("bac");
    tr.append("dad");
    tr.append("mad");

    assert!(!tr.search("b"));
    assert!(tr.search("ba"));
    assert!(tr.search("bad"));
    assert!(tr.search("mad"));
    assert!(!tr.search("bab"));
    assert!(!tr.search("pad"));

    tr.append("bab");
    assert!(tr.search("bab"));
}

#[test]
fn case_with_dot() {
    let mut tr = Trie::default();
    tr.append("ba");
    tr.append("bad");

    assert!(!tr.search(".b"));
    assert!(!tr.search(".b."));
    assert!(!tr.search("b"));
    assert!(tr.search("bad"));
    assert!(tr.search("b.d"));
    assert!(tr.search(".a."));
    assert!(tr.search("b.."));
    assert!(tr.search("..d"));
}

#[test]
fn prefix_search() {
    let mut tr = Trie::default();
    tr.append("ba");
    tr.append("bad");
    tr.append("bcd");

    assert_eq!(
        {
            let mut res = tr.starts_with("b");
            res.sort();
            res
        },
        vec!["ba", "bad", "bcd"]
    );
    assert_eq!(
        {
            let mut res = tr.starts_with("ba");
            res.sort();
            res
        },
        vec!["ba", "bad"]
    );
    assert_eq!(tr.starts_with("c"), Vec::<String>::new());
    assert_eq!(tr.starts_with("abc"), Vec::<String>::new());
}

#[test]
fn empty_append_is_ignored() {
    let mut tr = Trie::new();
    tr.append("");
    assert!(!tr.search(""));
    assert_eq!(tr.starts_with(""), Vec::<String>::new());
}

#[test]
fn follow_reaches_the_stored_subtree() {
    let mut tr = Trie::new();
    tr.append_bytes(b"cart");
    tr.append_bytes(b"car");
    assert!(tr.follow(b"car").is_some());
    assert!(tr.follow(b"ca").is_some());
    assert!(tr.follow(b"cat").is_none());
    assert!(tr.follow(b"car").unwrap().is_word);
    assert!(!tr.follow(b"ca").unwrap().is_word);
}

#[test]
fn dfs_lists_every_word_under_the_path() {
    let mut tr = Trie::new();
    tr.append("car");
    tr.append("cart");
    tr.append("cab");
    let mut found: Vec<String> = Vec::new();
    tr.dfs(&mut found, b"");
    found.sort();
    assert_eq!(found, vec!["cab", "car", "cart"]);
}

#[test]
fn word_keeps_its_value() {
    let w = Word::new("lizard".to_string());
    assert_eq!(w.value(), "lizard");
    let copy = w.clone();
    assert_eq!(w, copy);
}
