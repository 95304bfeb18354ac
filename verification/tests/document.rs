use f3note::document::{changed_on_disk, DiskStamp, Meta};
use f3note::text::LineEnding;

fn meta(path: Option<&str>, number: u32) -> Meta {
    Meta {
        path: path.map(|p| p.to_owned()),
        untitled_number: number,
        encoding: "UTF-8".to_owned(),
        line_ending: LineEnding::Lf,
        had_bom: false,
        large_file: None,
        disk: DiskStamp::default(),
        cursor_offset: 0,
        lossy: false,
    }
}

#[test]
fn disk_stamps_compare_only_when_both_are_known() {
    let known_a = DiskStamp { mtime: Some(0), size: Some(10) };
    let known_b = DiskStamp { mtime: Some(1_700_000_000_000_000_000), size: Some(10) };
    assert!(known_a.differs_from(&known_b));
    assert!(!known_a.differs_from(&known_a));
    // An unreadable file must not be reported as a change.
    assert!(!DiskStamp::default().differs_from(&known_a));
    assert!(!known_a.differs_from(&DiskStamp::default()));
}

#[test]
fn an_untitled_document_is_numbered() {
    let m = meta(None, 3);
    assert_eq!(m.title(), "Untitled 3");
    assert_eq!(m.tab_label(false), "Untitled 3");
}

#[test]
fn the_modified_marker_is_a_leading_asterisk() {
    assert_eq!(meta(None, 1).tab_label(true), "*Untitled 1");
}

#[test]
fn a_titled_document_shows_its_file_name_only() {
    let m = meta(Some("/home/u/notes/todo.txt"), 0);
    assert_eq!(m.title(), "todo.txt");
    assert_eq!(m.describe(), "/home/u/notes/todo.txt");
    assert_eq!(m.tab_label(true), "*todo.txt");
}

#[test]
fn an_untitled_document_never_looks_changed_on_disk() {
    let a = DiskStamp { mtime: Some(1), size: Some(1) };
    let b = DiskStamp { mtime: Some(2), size: Some(1) };
    assert!(!changed_on_disk(false, &a, &b));
    assert!(changed_on_disk(true, &a, &b));
    let c = DiskStamp { mtime: Some(1), size: Some(2) };
    assert!(changed_on_disk(true, &a, &c));
}

#[test]
fn a_path_without_a_file_name_is_shown_whole() {
    assert_eq!(meta(Some("/"), 0).title(), "/");
    assert_eq!(meta(None, 2).describe(), "Untitled 2");
}
