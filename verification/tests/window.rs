use f3note::config::Editor;
use f3note::document::{DiskStamp, Meta};
use f3note::mru::Mru;
use f3note::session::index::Entry;
use f3note::session::store::HistoryEntry;
use f3note::text::{decode, decode_with_limit, LargeFileReason, LineEnding};
use f3note::ui::window::{
    after_close, alt_digit_tab, bytes_to_save, bytes_to_save_as, history_heading, history_rows,
    open_index, recovered_load, reopen_candidates, CloseAction,
    autosave_failure_message, cycle_target, duplicate_insert, entry_for, job_for, jump_line,
    meta_for, moved_block_text, moved_range, replaced_message, restored_message, session_of,
    switcher_order, toggle_comment_block, zoom_css, zoom_step,
};

#[test]
fn the_comment_command_toggles_a_block() {
    let block = "    if x:\n        y()\n\n    return\n";
    let once = toggle_comment_block(block, "#");
    assert_eq!(once, "    # if x:\n    #     y()\n\n    # return\n");
    assert_eq!(toggle_comment_block(&once, "#"), block);
}

#[test]
fn a_partly_commented_block_is_commented_whole() {
    let block = "# a\nb";
    let once = toggle_comment_block(block, "#");
    assert_eq!(once, "# # a\n# b");
    assert_eq!(toggle_comment_block(&once, "#"), block);
    // All blank: nothing to do.
    assert_eq!(toggle_comment_block("  \n\n", "//"), "  \n\n");
    assert_eq!(toggle_comment_block("", "//"), "");
}

#[test]
fn moving_lines_stays_inside_the_buffer() {
    assert_eq!(moved_range(0, 1, -1, 10), None);
    assert_eq!(moved_range(8, 9, 1, 10), None);
    assert_eq!(moved_range(3, 4, 1, 10), Some((4, 5)));
    assert_eq!(moved_range(3, 4, -1, 10), Some((2, 3)));
    assert_eq!(moved_block_text("a\nb\n", false), "a\nb\n");
    assert_eq!(moved_block_text("last", true), "\nlast");
    assert_eq!(moved_block_text("last", false), "last\n");
    assert_eq!(moved_block_text("a\n\n", true), "a\n");
}

#[test]
fn duplicating_the_last_line_adds_its_line_break() {
    assert_eq!(duplicate_insert("a\n"), "a\n");
    assert_eq!(duplicate_insert("last"), "\nlast");
}

#[test]
fn zoom_is_bounded() {
    assert_eq!(zoom_step(0, 1), Some(1));
    assert_eq!(zoom_step(24, 1), None);
    assert_eq!(zoom_step(-6, -1), None);
    assert_eq!(zoom_step(23, 5), Some(24));
    assert_eq!(
        zoom_css("monospace", 11, 2),
        "window.f3note textview { font-family: monospace; font-size: 13pt; }"
    );
    assert_eq!(
        zoom_css("monospace", 5, -6),
        "window.f3note textview { font-family: monospace; font-size: 4pt; }"
    );
}

#[test]
fn ctrl_tab_goes_back_in_recency() {
    let mut m: Mru<u64> = Mru::default();
    m.touch(1);
    assert_eq!(cycle_target(&m, 1), None);
    m.touch(2);
    m.touch(3);
    assert_eq!(cycle_target(&m, 1), Some(2));
    assert_eq!(cycle_target(&m, -1), Some(1));
    assert_eq!(jump_line(-5, 10), 0);
    assert_eq!(jump_line(50, 10), 9);
    assert_eq!(jump_line(4, 10), 4);
    assert_eq!(jump_line(3, 0), 0);
}

#[test]
fn banners_say_what_happened() {
    assert_eq!(restored_message(0), None);
    assert_eq!(restored_message(1).unwrap(), "Restored 1 document with unsaved changes");
    assert_eq!(restored_message(3).unwrap(), "Restored 3 documents with unsaved changes");
    assert_eq!(replaced_message(0), "Nothing to replace");
    assert_eq!(replaced_message(1), "1 occurrence replaced");
    assert_eq!(replaced_message(12), "12 occurrences replaced");
    assert_eq!(
        autosave_failure_message("disk full"),
        "Autosave failed: disk full. Your work is not being protected."
    );
}

fn meta(path: Option<&str>) -> Meta {
    Meta {
        path: path.map(|p| p.to_owned()),
        untitled_number: 2,
        encoding: "windows-1252".to_owned(),
        line_ending: LineEnding::CrLf,
        had_bom: false,
        large_file: None,
        disk: DiskStamp { mtime: Some(1_700_000_000_500_000_000), size: Some(12) },
        cursor_offset: 7,
        lossy: false,
    }
}

#[test]
fn a_document_round_trips_through_its_session_entry() {
    let e = entry_for("f-abc".to_string(), &meta(Some("/tmp/a.txt")), true);
    assert_eq!(e.key, "f-abc");
    assert_eq!(e.line_ending, "crlf");
    assert_eq!(e.disk_mtime_secs, Some(1_700_000_000));
    let m = meta_for(&e);
    assert_eq!(m.path.as_deref(), Some("/tmp/a.txt"));
    assert_eq!(m.line_ending, LineEnding::CrLf);
    assert_eq!(m.disk.mtime, Some(1_700_000_000_000_000_000));
    assert_eq!(m.cursor_offset, 7);
    let before_epoch = Meta { disk: DiskStamp { mtime: Some(-5), size: None }, ..meta(None) };
    assert_eq!(entry_for("u-x".to_string(), &before_epoch, false).disk_mtime_secs, None);
}

#[test]
fn only_tabs_worth_restoring_are_recorded() {
    let entries: Vec<Entry> = vec![
        entry_for("u-1".to_string(), &meta(None), false),
        entry_for("f-2".to_string(), &meta(Some("/tmp/b")), false),
        entry_for("u-3".to_string(), &meta(None), true),
    ];
    let s = session_of(entries, 1, 4);
    assert_eq!(s.documents.len(), 2);
    assert_eq!(s.documents[0].key, "f-2");
    assert_eq!(s.documents[1].key, "u-3");
    assert_eq!(s.active, 1);
}

#[test]
fn the_switcher_puts_the_previous_tab_first() {
    // Tab 3 is current and 1 was used before it: Enter goes to 1, as Ctrl+Tab.
    assert_eq!(switcher_order(&[3, 9, 1], &[1, 2, 3]), vec![1, 3, 2]);
    assert_eq!(switcher_order(&[4, 5, 6], &[4, 5, 6]), vec![5, 4, 6]);
    assert_eq!(switcher_order(&[], &[5, 6]), vec![5, 6]);
    assert_eq!(switcher_order(&[7], &[7]), vec![7]);
}

#[test]
fn large_documents_skip_history() {
    let mut e = Editor::default();
    e.history_max_bytes = 4;
    let job = job_for("k".to_string(), b"12345".to_vec(), &e);
    assert!(!job.keep_history);
    let job = job_for("k".to_string(), b"1234".to_vec(), &e);
    assert!(job.keep_history);
    assert_eq!(job.history_limit, 200);
}

#[test]
fn a_recovered_document_opens_with_its_mirror_and_stays_modified() {
    let disk = decode(b"saved\n");
    let (loaded, modified) = recovered_load(Some(disk), Some(b"typed since\n"), true, 10_000);
    assert_eq!(loaded.unwrap().text, "typed since\n");
    assert!(modified);

    // Not recovered: the disk contents, unmodified.
    let (loaded, modified) = recovered_load(Some(decode(b"saved\n")), Some(b"x"), false, 10_000);
    assert_eq!(loaded.unwrap().text, "saved\n");
    assert!(!modified);

    // Recovered but the mirror is unreadable: the disk load, still marked.
    let (loaded, modified) = recovered_load(Some(decode(b"saved\n")), None, true, 10_000);
    assert_eq!(loaded.unwrap().text, "saved\n");
    assert!(modified);

    // Nothing loaded at all.
    let (loaded, modified) = recovered_load(None, None, true, 10_000);
    assert!(loaded.is_none());
    assert!(!modified);
}

#[test]
fn a_recovered_mirror_keeps_the_disk_files_limits() {
    let disk = decode_with_limit(b"0123456789\n", 4);
    assert!(disk.large_file.is_some());
    let (loaded, _) = recovered_load(Some(disk), Some(b"ab\n"), true, 4);
    assert_eq!(loaded.unwrap().large_file, Some(LargeFileReason::LongLines { longest: 10 }));
}

#[test]
fn a_lossy_document_refuses_to_save() {
    let mut m = meta(Some("/tmp/a.txt"));
    m.lossy = true;
    assert_eq!(
        bytes_to_save(&m, "x").unwrap_err(),
        "This file could not be decoded cleanly; saving would lose data. Use Save As."
    );
    m.lossy = false;
    assert_eq!(bytes_to_save(&m, "a\nb").unwrap(), b"a\r\nb".to_vec());
}

#[test]
fn closing_a_tab_goes_to_the_most_recent_one() {
    assert_eq!(after_close(&[1, 2, 3], &[2, 3, 1], 9), CloseAction::NotOpen);
    assert_eq!(after_close(&[4], &[4], 4), CloseAction::OpenEmpty);
    // Closing 2 (current): 3 was used before it and now sits at index 1.
    assert_eq!(after_close(&[1, 2, 3], &[2, 3, 1], 2), CloseAction::Select(1));
    assert_eq!(after_close(&[1, 2, 3], &[2], 2), CloseAction::KeepSelection);
    assert_eq!(after_close(&[1, 2, 3], &[2, 7], 2), CloseAction::KeepSelection);
}

#[test]
fn opening_an_open_file_finds_its_tab() {
    let paths = vec![None, Some("/tmp/a.txt".to_string()), Some("/tmp/b.txt".to_string())];
    assert_eq!(open_index(&paths, "/tmp/b.txt"), Some(2));
    assert_eq!(open_index(&paths, "/tmp//a.txt"), Some(1));
    assert_eq!(open_index(&paths, "/tmp/c.txt"), None);
}

#[test]
fn the_switcher_offers_closed_files_that_are_not_open() {
    let recent: Vec<String> = ["/a", "/b", "/c"].iter().map(|s| s.to_string()).collect();
    let open: Vec<String> = vec!["/b".to_string()];
    assert_eq!(reopen_candidates(&recent, &open), vec!["/a".to_string(), "/c".to_string()]);
}

#[test]
fn alt_nine_is_the_last_tab() {
    assert_eq!(alt_digit_tab(1, 12), 0);
    assert_eq!(alt_digit_tab(8, 12), 7);
    assert_eq!(alt_digit_tab(9, 12), 11);
    assert_eq!(alt_digit_tab(9, 3), 2);
    assert_eq!(alt_digit_tab(9, 0), 0);
}

#[test]
fn the_history_panel_lists_the_newest_first() {
    assert_eq!(
        history_rows(&vec![], 0).unwrap_err(),
        "No earlier versions of this document yet. They are kept as you work."
    );
    let entry = |sequence: u64, bytes: u64| HistoryEntry {
        sequence,
        hash: "x".into(),
        path: String::new(),
        written_at: None,
        stored_bytes: bytes,
    };
    let rows = history_rows(&vec![entry(1, 312), entry(2, 4096)], 0).unwrap();
    assert_eq!(rows.len(), 2);
    assert_eq!(rows[0].sequence, 2);
    assert_eq!(rows[0].size, "4 KB compressed");
    assert_eq!(rows[1].sequence, 1);
    assert_eq!(rows[1].size, "312 bytes compressed");
    assert_eq!(rows[1].age, "unknown");
    assert_eq!(history_heading("notes.txt"), "notes.txt — earlier versions");
}

#[test]
fn a_lossy_document_can_be_saved_under_another_name() {
    let mut m = meta(Some("/tmp/a.txt"));
    m.lossy = true;
    assert!(bytes_to_save_as(&m, "x", "/tmp/a.txt").is_err());
    assert_eq!(bytes_to_save_as(&m, "a\nb", "/tmp/b.txt").unwrap(), b"a\r\nb".to_vec());
    m.lossy = false;
    assert_eq!(bytes_to_save_as(&m, "a", "/tmp/a.txt").unwrap(), b"a".to_vec());
}
