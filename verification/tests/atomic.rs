use f3note::atomic::{is_fatal, libc_eio, temp_name, IoErrorKind};

#[test]
fn only_errors_that_lose_writes_are_fatal() {
    assert!(is_fatal(IoErrorKind::StorageFull, None));
    assert!(is_fatal(IoErrorKind::PermissionDenied, None));
    assert!(is_fatal(IoErrorKind::ReadOnlyFilesystem, None));
    assert!(is_fatal(IoErrorKind::Other, Some(libc_eio())));
    assert!(!is_fatal(IoErrorKind::Other, Some(2)));
    assert!(!is_fatal(IoErrorKind::Other, None));
}

#[test]
fn temporary_names_are_hidden_and_distinct() {
    assert_eq!(temp_name(Some("session.json"), 42, 0), ".session.json.42.0.tmp");
    assert_eq!(temp_name(None, 7, 3), ".f3note.7.3.tmp");
    assert_ne!(temp_name(Some("a"), 1, 1), temp_name(Some("a"), 1, 2));
}
