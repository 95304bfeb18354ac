use f3note::text::LargeFileReason;
use f3note::ui::bars::{
    capabilities, encoding_text, forgot_session_message, listed_results, match_count_text,
    matches_summary, name_prompt, notice_text, position_text, sessions_heading, unsaved_text,
    window_title, worth_searching,
};

#[test]
fn the_status_bar_reads_naturally() {
    assert_eq!(unsaved_text(0), "");
    assert_eq!(unsaved_text(1), "1 unsaved");
    assert_eq!(unsaved_text(4), "4 unsaved");
    assert_eq!(position_text(0, 0), "Ln 1, Col 1");
    assert_eq!(encoding_text("UTF-8", true, true), "UTF-8 BOM (lossy)");
    assert_eq!(encoding_text("UTF-8", false, false), "UTF-8");
    assert_eq!(notice_text(Some(LargeFileReason::LongLines { longest: 9 })), "reduced mode: long lines");
    assert_eq!(notice_text(None), "");
}

#[test]
fn the_find_bar_counts_matches() {
    assert_eq!(match_count_text(true, 1, 5), "");
    assert_eq!(match_count_text(false, 0, 0), "No results");
    assert_eq!(match_count_text(false, 2, 5), "2 of 5");
    assert_eq!(match_count_text(false, -1, 5), "5 found");
    assert_eq!(matches_summary(0), "No matches");
    assert_eq!(matches_summary(1), "1 match");
    assert_eq!(matches_summary(7), "7 matches");
    assert_eq!(window_title(true, "a.txt"), "*a.txt — f3note");
}

#[test]
fn reduced_mode_turns_off_the_expensive_parts() {
    let c = capabilities(true, true, true, true, true);
    assert!(c.line_numbers && !c.highlight_current_line && !c.wrap && !c.match_brackets && !c.highlight_syntax);
    let c = capabilities(false, true, true, false, false);
    assert!(!c.line_numbers && c.highlight_current_line && c.wrap && c.match_brackets && !c.highlight_syntax);
}

#[test]
fn a_search_needs_two_characters_and_lists_at_most_500() {
    assert!(!worth_searching(""));
    assert!(!worth_searching("é"));
    assert!(worth_searching("ab"));
    assert_eq!(listed_results(12), 12);
    assert_eq!(listed_results(500), 500);
    assert_eq!(listed_results(9_000), 500);
}

#[test]
fn the_sessions_panel_speaks_plainly() {
    assert_eq!(name_prompt(1), "Name for this tab, then Enter");
    assert_eq!(name_prompt(3), "Name for these 3 tabs, then Enter");
    assert_eq!(sessions_heading(false), "Sessions");
    assert_eq!(sessions_heading(true), "Sessions — pick one to switch, or name these tabs below");
    assert_eq!(forgot_session_message("work"), "Forgot the session \"work\".");
}
