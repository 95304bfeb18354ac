use f3note::fuzzy::{rank, score};

#[test]
fn an_empty_query_matches_everything() {
    assert_eq!(score("", "anything"), Some(0));
}

#[test]
fn matches_a_subsequence_not_just_a_substring() {
    assert!(score("mn", "main.rs").is_some());
    assert!(score("mrs", "main.rs").is_some());
}

#[test]
fn rejects_characters_that_are_not_there() {
    assert_eq!(score("xyz", "main.rs"), None);
    // Order matters: the characters must appear in sequence.
    assert_eq!(score("sr", "rs"), None);
}

#[test]
fn is_case_insensitive() {
    assert!(score("MAIN", "main.rs").is_some());
    assert!(score("main", "MAIN.RS").is_some());
}

#[test]
fn a_prefix_beats_a_scattered_match() {
    let prefix = score("mai", "main.rs").unwrap();
    let scattered = score("mai", "my-application-index").unwrap();
    assert!(prefix > scattered, "{prefix} should beat {scattered}");
}

#[test]
fn a_word_boundary_beats_the_middle_of_a_word() {
    let boundary = score("t", "my_test").unwrap();
    let middle = score("t", "artist").unwrap();
    assert!(boundary > middle, "{boundary} should beat {middle}");
}

#[test]
fn the_file_name_outranks_the_directory() {
    let items = vec![
        ("notes.txt".to_string(), "/home/u/config/notes.txt".to_string()),
        ("readme.md".to_string(), "/home/u/notes/readme.md".to_string()),
    ];
    let ranked = rank("notes", &items, |i| (i.0.clone(), i.1.clone()));
    assert_eq!(ranked[0].0 .0, "notes.txt");
}

#[test]
fn ranking_drops_non_matches() {
    let items = vec![
        ("main.rs".to_string(), "src/main.rs".to_string()),
        ("banner.rs".to_string(), "src/ui/banner.rs".to_string()),
    ];
    let ranked = rank("zzz", &items, |i| (i.0.clone(), i.1.clone()));
    assert!(ranked.is_empty());
}

#[test]
fn equal_scores_keep_their_incoming_order() {
    let items = vec![
        ("a.txt".to_string(), "a.txt".to_string()),
        ("a.txt".to_string(), "a.txt".to_string()),
    ];
    let ranked = rank("a", &items, |i| (i.0.clone(), i.1.clone()));
    assert_eq!(ranked.len(), 2);
    assert_eq!(ranked[0].1, ranked[1].1);
    assert!(std::ptr::eq(ranked[0].0, &items[0]));
    assert!(std::ptr::eq(ranked[1].0, &items[1]));
}

#[test]
fn ranking_puts_the_best_first() {
    let items = vec![
        ("my-application-index".to_string(), "x/my-application-index".to_string()),
        ("main.rs".to_string(), "src/main.rs".to_string()),
    ];
    let ranked = rank("mai", &items, |i| (i.0.clone(), i.1.clone()));
    assert_eq!(ranked.len(), 2);
    assert_eq!(ranked[0].0 .0, "main.rs");
    assert!(ranked[0].1 >= ranked[1].1);
}

#[test]
fn letters_out_of_order_do_not_match() {
    assert!(score("nm", "main.rs").is_none());
    assert!(score("MAIN", "main.rs").is_some());
    assert!(score("mainx", "main.rs").is_none());
}
