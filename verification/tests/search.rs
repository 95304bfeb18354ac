use f3note::search::{find_in_text, looks_like_text, should_skip_dir, step_for, worth_walking, Limits, Step};

#[test]
fn finds_every_occurrence_with_its_position() {
    let found = find_in_text("one two\nthree two four\n", "two", true);
    assert_eq!(found.len(), 2);
    assert_eq!((found[0].line, found[0].column), (0, 4));
    assert_eq!((found[1].line, found[1].column), (1, 6));
    assert_eq!(found[1].text, "three two four");
}

#[test]
fn case_insensitive_by_request() {
    assert_eq!(find_in_text("Hello hello", "hello", false).len(), 2);
    assert_eq!(find_in_text("Hello hello", "hello", true).len(), 1);
}

#[test]
fn columns_are_characters_not_bytes() {
    // Each accented character is two bytes; the column must still be 3.
    let found = find_in_text("ááá needle", "needle", true);
    assert_eq!(found[0].column, 4);
}

#[test]
fn repeated_text_does_not_produce_overlapping_matches() {
    // "aaaa" contains "aa" twice as a person would count it, not three
    // times as an overlapping scan would.
    let found = find_in_text("aaaa", "aa", true);
    assert_eq!(found.len(), 2);
    assert_eq!(found[0].column, 0);
    assert_eq!(found[1].column, 2);
}

#[test]
fn an_empty_query_matches_nothing() {
    assert!(find_in_text("anything", "", true).is_empty());
}

#[test]
fn noisy_directories_are_skipped() {
    assert!(should_skip_dir(".git"));
    assert!(should_skip_dir("node_modules"));
    assert!(should_skip_dir("target"));
    assert!(!should_skip_dir("src"));
    assert!(!should_skip_dir("gitlab"));
}

#[test]
fn binary_content_is_recognised_by_a_nul_byte() {
    assert!(looks_like_text(b"plain text"));
    assert!(!looks_like_text(b"PNG\x00\x01"));
    assert!(looks_like_text("acentuação".as_bytes()));
}

#[test]
fn crlf_lines_are_matched_without_their_carriage_return() {
    let found = find_in_text("Alpha\r\nbeta ALPHA\r\n", "alpha", false);
    assert_eq!(found.len(), 2);
    assert_eq!(found[0].text, "Alpha");
    assert_eq!((found[1].line, found[1].column), (1, 5));
    assert_eq!(found[1].text, "beta ALPHA");
}

#[test]
fn the_walk_obeys_its_limits() {
    let limits = Limits::default();
    assert_eq!(limits.max_files, 2000);
    assert_eq!(limits.max_file_bytes, 2 * 1024 * 1024);
    assert_eq!(limits.max_depth, 8);
    assert!(worth_walking(8, 1999, &limits));
    assert!(!worth_walking(9, 0, &limits));
    assert!(!worth_walking(0, 2000, &limits));
    assert_eq!(step_for(true, true, "src", 0, &limits), Step::Skip);
    assert_eq!(step_for(false, true, ".git", 0, &limits), Step::Skip);
    assert_eq!(step_for(false, true, "src", 0, &limits), Step::Descend);
    assert_eq!(step_for(false, false, "a.txt", 1024, &limits), Step::Take);
    assert_eq!(step_for(false, false, "big.bin", 3 * 1024 * 1024, &limits), Step::Skip);
}
