use phrase_guard::service::{build_vocabulary, check_against, MatchService};

fn entries(words: &[&str]) -> Vec<String> {
    words.iter().map(|w| w.to_string()).collect()
}

#[test]
fn end_to_end_example() {
    let svc = MatchService::new();
    svc.reload(&entries(&["kill", "very bad"]));
    assert_eq!(svc.word_count(), 2);
    assert!(svc.check("this is a kill command"));
    assert!(!svc.check("totally safe text"));
}

#[test]
fn empty_vocabulary_matches_nothing() {
    let svc = MatchService::new();
    assert_eq!(svc.word_count(), 0);
    assert!(!svc.check("kill"));
    assert!(!svc.check(""));
}

#[test]
fn entries_that_normalize_to_nothing_are_dropped() {
    let svc = MatchService::new();
    svc.reload(&entries(&["kill", "the", "", "kill"]));
    assert_eq!(svc.word_count(), 1);
}

#[test]
fn reload_replaces_the_whole_vocabulary() {
    let svc = MatchService::new();
    svc.reload(&entries(&["alpha"]));
    assert!(svc.check("alpha"));
    assert!(!svc.check("omega"));
    svc.reload(&entries(&["omega"]));
    assert!(!svc.check("alpha"));
    assert!(svc.check("omega"));
}

#[test]
fn stale_vocabulary_survives_failed_fetch() {
    let svc = MatchService::new();
    svc.reload(&entries(&["kill"]));
    let r = svc.reload_from_fetch(Err("fetch failed".to_string()));
    assert_eq!(r, Err("fetch failed".to_string()));
    assert_eq!(svc.word_count(), 1);
    assert!(svc.check("kill"));
}

#[test]
fn successful_fetch_installs_new_vocabulary() {
    let svc = MatchService::new();
    svc.reload(&entries(&["kill"]));
    let r = svc.reload_from_fetch(Ok(entries(&["omega"])));
    assert_eq!(r, Ok(()));
    assert!(svc.check("omega"));
    assert!(!svc.check("kill"));
}

#[test]
fn adjacency_is_semantic_not_lexical() {
    let svc = MatchService::new();
    svc.reload(&entries(&["kill command"]));
    assert!(svc.check("kill the command"));
    assert!(!svc.check("kill quickly command"));
}

#[test]
fn matching_is_case_insensitive() {
    let svc = MatchService::new();
    svc.reload(&entries(&["KILL"]));
    assert!(svc.check("Kill now"));
}

#[test]
fn vocabulary_entries_are_stemmed() {
    let svc = MatchService::new();
    svc.reload(&entries(&["running"]));
    assert!(svc.check("run"));
}

#[test]
fn check_against_is_pure_over_one_snapshot() {
    let t = build_vocabulary(&entries(&["kill", "very bad"]));
    assert_eq!(t.count_words(), 2);
    assert!(check_against(&t, "a kill order"));
    assert!(!check_against(&t, "peaceful"));
    assert_eq!(check_against(&t, "a kill order"), check_against(&t, "a kill order"));
}
