use phrase_guard::normalize::{normalize_entry, normalize_tokens, process_single_word, process_text};

#[test]
fn process_text_is_deterministic() {
    let text = "This is a Very BAD kill command!";
    let first = process_text(text);
    let second = process_text(text);
    assert_eq!(first, second);
}

#[test]
fn process_text_degrades_to_empty() {
    assert_eq!(process_text(""), Vec::<String>::new());
    assert_eq!(process_text("   "), Vec::<String>::new());
    assert_eq!(process_text("the and of"), Vec::<String>::new());
}

#[test]
fn process_text_emits_ngrams_in_order() {
    let phrases = process_text("kill command safe");
    assert_eq!(
        phrases,
        vec![
            "kill".to_string(),
            "kill command".to_string(),
            "kill command safe".to_string(),
            "command".to_string(),
            "command safe".to_string(),
            "safe".to_string(),
        ]
    );
}

#[test]
fn lowercasing_applies_before_matching() {
    assert_eq!(process_single_word("KILL"), Some("kill".to_string()));
}

#[test]
fn stemming_applies() {
    assert_eq!(process_single_word("fruitlessly"), Some("fruitless".to_string()));
}

#[test]
fn stopwords_yield_nothing() {
    assert_eq!(process_single_word(""), None);
    assert_eq!(process_single_word("the"), None);
}

#[test]
fn process_single_word_keeps_first_phrase() {
    let all = process_text("kill command");
    assert_eq!(process_single_word("kill command"), Some(all[0].clone()));
    assert_eq!(process_single_word("kill command"), Some("kill".to_string()));
}

#[test]
fn normalize_entry_keeps_the_whole_phrase() {
    assert_eq!(
        normalize_entry("kill command"),
        Some(vec!["kill".to_string(), "command".to_string()])
    );
    assert_eq!(normalize_entry("the"), None);
    assert_eq!(normalize_entry(""), None);
}

#[test]
fn stopword_between_tokens_collapses() {
    assert_eq!(
        normalize_tokens("kill the command"),
        vec!["kill".to_string(), "command".to_string()]
    );
}
