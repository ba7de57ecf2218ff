use phrase_guard::trie::Trie;

#[test]
fn new_trie_is_empty() {
    let t = Trie::new();
    assert_eq!(t.count_words(), 0);
    assert!(!t.search("kill"));
    assert!(!t.search(""));
}

#[test]
fn insert_then_search_round_trip() {
    let mut t = Trie::new();
    t.insert("kill");
    assert!(t.search("kill"));
    assert!(!t.search("killer"));
    assert!(!t.search("kil"));
    assert_eq!(t.count_words(), 1);
}

#[test]
fn multi_token_phrase_is_one_path() {
    let mut t = Trie::new();
    t.insert("very bad");
    assert!(t.search("very bad"));
    assert!(!t.search("very"));
    assert!(!t.search("bad"));
    assert!(!t.search("very bad thing"));
    assert_eq!(t.count_words(), 1);
}

#[test]
fn insert_twice_is_idempotent() {
    let mut once = Trie::new();
    once.insert("kill");
    once.insert("very bad");
    let mut twice = Trie::new();
    twice.insert("kill");
    twice.insert("kill");
    twice.insert("very bad");
    twice.insert("very bad");
    assert_eq!(once.count_words(), twice.count_words());
    assert_eq!(once.search("kill"), twice.search("kill"));
    assert_eq!(once.search("very bad"), twice.search("very bad"));
    assert_eq!(once.search("very"), twice.search("very"));
}

#[test]
fn empty_phrase_is_never_stored() {
    let mut t = Trie::new();
    t.insert("");
    t.insert("   ");
    assert_eq!(t.count_words(), 0);
    assert!(!t.search(""));
    assert!(!t.search("   "));
}

#[test]
fn whitespace_is_canonicalized_on_insert() {
    let mut t = Trie::new();
    t.insert("very  bad");
    assert!(t.search("very bad"));
    assert!(t.search(" very bad "));
}

#[test]
fn count_words_counts_distinct_phrases() {
    let mut t = Trie::new();
    t.insert("kill");
    t.insert("bad");
    t.insert("kill command");
    t.insert("kill");
    assert_eq!(t.count_words(), 3);
}

#[test]
fn token_level_insert_and_window_search() {
    let mut t = Trie::new();
    t.insert_tokens(&vec!["very".to_string(), "bad".to_string()]);
    assert!(t.search_tokens(&vec!["very".to_string(), "bad".to_string()]));
    assert!(!t.search_tokens(&vec!["very".to_string()]));
    let text_tokens = vec!["a".to_string(), "very".to_string(), "bad".to_string()];
    assert!(t.search_window(&text_tokens, 1, 2));
    assert!(!t.search_window(&text_tokens, 0, 2));
    assert!(!t.search_window(&text_tokens, 1, 1));
}
