use f3note::ipc::{address_name, handover_text, received_paths};

#[test]
fn the_address_is_scoped_to_the_state_directory() {
    let a = address_name("/tmp/one/f3note");
    let b = address_name("/tmp/two/f3note");
    assert!(a.starts_with("f3note-"));
    assert_eq!(a.len(), "f3note-".len() + 16);
    assert_ne!(a, b, "separate state directories must be separate instances");
    assert_eq!(a, address_name("/tmp/one/f3note"));
}

#[test]
fn handed_over_paths_arrive_as_sent() {
    let paths = vec!["/tmp/handed-over.txt".to_string(), "/tmp/b c.txt".to_string()];
    let text = handover_text(&paths);
    assert_eq!(text, "/tmp/handed-over.txt\n/tmp/b c.txt\n");
    assert_eq!(received_paths(&text), paths);
}

#[test]
fn a_path_with_a_line_break_is_not_sent() {
    let paths = vec!["/tmp/a".to_string(), "/tmp/evil\nname".to_string()];
    assert_eq!(handover_text(&paths), "/tmp/a\n");
    assert_eq!(received_paths("  /tmp/x \r\n\n/tmp/y"), vec!["/tmp/x".to_string(), "/tmp/y".to_string()]);
}
