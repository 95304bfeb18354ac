use f3note::session::index::{
    accept_named, default_encoding, line_ending_from, line_ending_name, recover, sanitise_name,
    Entry, Session, VERSION,
};
use f3note::text::LineEnding;

fn entry(key: &str, path: Option<&str>) -> Entry {
    Entry {
        key: key.to_owned(),
        path: path.map(|p| p.to_owned()),
        untitled_number: 1,
        cursor: 0,
        modified: false,
        encoding: "UTF-8".to_owned(),
        line_ending: "lf".to_owned(),
        had_bom: false,
        disk_size: None,
        disk_mtime_secs: None,
    }
}

#[test]
fn session_names_become_safe_file_names() {
    assert_eq!(sanitise_name("work"), "work");
    assert_eq!(sanitise_name("work: 2026"), "work-2026");
    assert_eq!(sanitise_name("my config files"), "my-config-files");
    // No traversal, whatever the user types.
    assert_eq!(sanitise_name("../../etc/passwd"), "etc-passwd");
    assert_eq!(sanitise_name("/"), "session");
    assert_eq!(sanitise_name(""), "session");
    assert!(sanitise_name(&"x".repeat(200)).len() <= 64);
}

#[test]
fn an_untouched_untitled_tab_is_not_worth_restoring() {
    let clean = entry("k", None);
    assert!(!clean.is_worth_restoring());

    let mut typed_in = entry("k", None);
    typed_in.modified = true;
    assert!(typed_in.is_worth_restoring());

    assert!(entry("k", Some("/tmp/a.txt")).is_worth_restoring());
}

#[test]
fn session_names_keep_letters_from_any_script() {
    assert_eq!(sanitise_name("notas_2026 ação"), "notas_2026-ação");
    assert_eq!(sanitise_name("--a  --  b--"), "a-b");
    assert_eq!(sanitise_name(&"y".repeat(70)).chars().count(), 64);
}

#[test]
fn line_endings_are_stored_by_name_and_read_back() {
    for e in [LineEnding::Lf, LineEnding::CrLf, LineEnding::Cr] {
        assert_eq!(line_ending_from(line_ending_name(e)), e);
    }
    assert_eq!(line_ending_from("something else"), LineEnding::Lf);
    let mut e = entry("k", None);
    e.set_line_ending(LineEnding::CrLf);
    assert_eq!(e.line_ending, "crlf");
    assert_eq!(e.line_ending(), LineEnding::CrLf);
    assert_eq!(default_encoding(), "UTF-8");
}

fn session_with(keys: &[&str], active: usize, next_untitled: u32, version: u32) -> Session {
    let mut s = Session::default();
    s.version = version;
    for k in keys {
        s.documents.push(entry(k, Some("/tmp/x")));
    }
    s.active = active;
    s.next_untitled = next_untitled;
    s
}

#[test]
fn recovery_falls_back_to_the_backup_and_then_to_nothing() {
    // A usable primary wins.
    let r = recover(Some(session_with(&["a"], 0, 2, VERSION)), Some(session_with(&["b"], 0, 2, VERSION)));
    assert_eq!(r.documents[0].key, "a");
    // A corrupt primary (nothing parsed) falls back to the backup.
    let r = recover(None, Some(session_with(&["b"], 0, 2, VERSION)));
    assert_eq!(r.documents[0].key, "b");
    // A primary from another version is ignored too.
    let r = recover(Some(session_with(&["a"], 0, 2, VERSION + 7)), Some(session_with(&["b"], 0, 2, VERSION)));
    assert_eq!(r.documents[0].key, "b");
    // Neither usable: an empty session, not an error.
    let r = recover(None, Some(session_with(&["b"], 0, 2, VERSION + 1)));
    assert!(r.documents.is_empty());
    assert_eq!(r.version, VERSION);
    assert_eq!(r.next_untitled, 1);
}

#[test]
fn sanitising_drops_keyless_entries_and_fixes_the_active_index() {
    let s = session_with(&["", "k2", ""], 99, 0, VERSION).sanitised();
    assert_eq!(s.documents.len(), 1);
    assert_eq!(s.documents[0].key, "k2");
    assert_eq!(s.active, 0);
    assert_eq!(s.next_untitled, 1);
    let s = session_with(&["k1", "k2", "k3"], 1, 4, VERSION).sanitised();
    assert_eq!(s.active, 1);
    assert_eq!(s.next_untitled, 4);
    assert!(accept_named(session_with(&["k1"], 0, 1, VERSION + 1)).is_none());
    assert_eq!(accept_named(session_with(&["k1"], 5, 1, VERSION)).unwrap().active, 0);
}
