use unholy_force::trie::Trie;

fn check_contains(words: &Vec<String>, word: &str) {
    if words.iter().all(|it| !(*it).eq(word)) {
        panic!("expected to contain {}", word);
    }
}

#[test]
fn test_trie() {
    let mut trie = Trie::new();
    trie.push("hello");
    trie.push("world");
    trie.push("rust");
    let words = trie.words();
    check_contains(&words, "hello");
    check_contains(&words, "world");
    check_contains(&words, "rust");

    trie.clear();
    let words = trie.words();
    assert!(words.is_empty());

    trie.push("hero");
    trie.push("tries");
    trie.push("to");
    trie.push("trust");

    let Some(sub_trie) = trie.find_by_prefix("t") else {
        panic!("expected to find sub trie for prefix 't'");
    };
    let words = sub_trie.words();
    check_contains(&words, "ries");
    check_contains(&words, "o");
    check_contains(&words, "rust");
}

#[test]
fn trie_words_are_exactly_the_pushed_words() {
    let mut trie = Trie::new();
    trie.push("ab");
    trie.push("abc");
    trie.push("b");
    trie.push("ab");
    let mut words = trie.words();
    words.sort();
    assert_eq!(words, vec!["ab".to_string(), "abc".to_string(), "b".to_string()]);
}

#[test]
fn trie_completions_drop_the_prefix() {
    let mut trie = Trie::new();
    trie.push("hero");
    trie.push("hello");
    trie.push("world");
    let mut completions = trie.find_completions("he");
    completions.sort();
    assert_eq!(completions, vec!["llo".to_string(), "ro".to_string()]);
    assert!(trie.find_completions("x").is_empty());
}

#[test]
fn trie_unknown_prefix_has_no_sub_trie() {
    let mut trie = Trie::new();
    trie.push("rust");
    assert!(trie.find_by_prefix("ra").is_none());
    assert!(trie.find_by_prefix("ru").is_some());
}

#[test]
fn trie_empty_word_is_not_stored() {
    let mut trie = Trie::new();
    trie.push("");
    assert!(trie.words().is_empty());
}

#[test]
fn trie_non_ascii_words() {
    let mut trie = Trie::new();
    trie.push("черта");
    trie.push("чары");
    let mut completions = trie.find_completions("ч");
    completions.sort();
    assert_eq!(completions, vec!["ары".to_string(), "ерта".to_string()]);
}

#[test]
fn trie_default_is_empty() {
    let trie = Trie::default();
    assert!(trie.words().is_empty());
}

#[test]
fn trie_push_and_push_chars_build_the_same_tree() {
    let words = ["zeta", "alpha", "alps", "al", "beta", "zed"];
    let mut by_text = Trie::new();
    let mut by_chars = Trie::new();
    for w in words.iter() {
        by_text.push(w);
        let mut chars = w.chars();
        by_chars.push_chars(&mut chars);
        assert_eq!(chars.as_str(), "");
    }
    assert_eq!(by_text.words(), by_chars.words());
    assert_eq!(by_text.find_completions("al"), by_chars.find_completions("al"));
}

#[test]
fn trie_empty_prefix_gives_the_tree_itself() {
    let mut trie = Trie::new();
    trie.push("one");
    trie.push("two");
    let found = trie.find_by_prefix("").unwrap();
    assert!(std::ptr::eq(found, &trie));
    assert_eq!(found.words(), trie.words());
}

#[test]
fn trie_clone_is_equal_node_for_node() {
    let mut trie = Trie::new();
    trie.push("beta");
    trie.push("bet");
    trie.push("alpha");
    let copy = trie.clone();
    assert_eq!(copy, trie);
    assert_eq!(copy.words(), trie.words());
    let mut other = Trie::new();
    other.push("alpha");
    assert_ne!(other, trie);
}
