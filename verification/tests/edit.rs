use f3note::edit::{
    affected_lines, comment_column, comment_line, comment_prefix_for, marker_for_extension,
    should_uncomment, uncomment_line,
};

#[test]
fn a_selection_ending_at_a_line_start_excludes_that_line() {
    // Dragging from line 2 to the very start of line 5 highlights 2..4.
    assert_eq!(affected_lines(2, 5, true), (2, 4));
    // Ending anywhere inside line 5 includes it.
    assert_eq!(affected_lines(2, 5, false), (2, 5));
}

#[test]
fn a_backwards_selection_is_the_same_range() {
    assert_eq!(affected_lines(7, 3, false), (3, 7));
}

#[test]
fn a_single_line_is_never_reduced_to_nothing() {
    assert_eq!(affected_lines(4, 4, true), (4, 4));
}

#[test]
fn uncomments_only_when_everything_is_commented() {
    assert!(should_uncomment(&["# one", "# two"], "#"));
    assert!(!should_uncomment(&["# one", "two"], "#"));
    // Blank lines do not count either way.
    assert!(should_uncomment(&["# one", "", "# two"], "#"));
    // Nothing but blanks is not "all commented".
    assert!(!should_uncomment(&["", "   "], "#"));
}

#[test]
fn markers_line_up_at_the_shallowest_indent() {
    let lines = ["    if x:", "        y()", "    return"];
    assert_eq!(comment_column(&lines), 4);
    assert_eq!(comment_line(lines[1], "#", 4), "    #     y()");
}

#[test]
fn blank_lines_are_left_alone() {
    assert_eq!(comment_line("", "#", 0), "");
    assert_eq!(comment_line("   ", "#", 0), "   ");
}

#[test]
fn commenting_and_uncommenting_round_trip() {
    for line in ["x = 1", "    indented", "no-space#inside"] {
        let column = comment_column(&[line]);
        let commented = comment_line(line, "#", column);
        assert_eq!(uncomment_line(&commented, "#"), line);
    }
}

#[test]
fn uncommenting_keeps_extra_spacing_the_user_typed() {
    // One space after the marker is ours and is removed; the rest is
    // theirs and stays.
    assert_eq!(uncomment_line("#   spaced", "#"), "  spaced");
}

#[test]
fn uncommenting_a_line_without_a_marker_changes_nothing() {
    assert_eq!(uncomment_line("plain", "#"), "plain");
}

#[test]
fn comment_markers_follow_the_file_type() {
    assert_eq!(comment_prefix_for(Some("a.rs")), "//");
    assert_eq!(comment_prefix_for(Some("a.lua")), "--");
    assert_eq!(comment_prefix_for(Some("a.py")), "#");
    assert_eq!(comment_prefix_for(Some("a.RS")), "//");
    assert_eq!(comment_prefix_for(Some("noext")), "#");
    assert_eq!(comment_prefix_for(None), "#");
}

#[test]
fn a_whole_block_round_trips_at_its_shared_column() {
    let block = ["    fn a() {", "        b();", "", "    }"];
    let column = comment_column(&block);
    assert_eq!(column, 4);
    for line in block {
        let commented = comment_line(line, "//", column);
        assert_eq!(uncomment_line(&commented, "//"), line);
    }
}

#[test]
fn columns_count_bytes_of_wide_indentation() {
    // An ideographic space is three bytes of UTF-8.
    assert_eq!(comment_column(&["\u{3000}x"]), 3);
    assert_eq!(comment_line("\u{3000}x", "#", 3), "\u{3000}# x");
    // A column past the end of the line puts the marker at the end.
    assert_eq!(comment_line("ab", "#", 10), "ab# ");
}

#[test]
fn the_extension_is_taken_from_the_file_name_only() {
    assert_eq!(comment_prefix_for(Some("/home/u/conf.d/init")), "#");
    assert_eq!(comment_prefix_for(Some("/home/u/src/lib.rs")), "//");
    assert_eq!(comment_prefix_for(Some(".bashrc")), "#");
    assert_eq!(comment_prefix_for(Some("x.vim")), "\"");
    assert_eq!(comment_prefix_for(Some("x.BAT")), "REM");
    assert_eq!(marker_for_extension("TeX"), "%");
    assert_eq!(marker_for_extension("el"), ";");
}
