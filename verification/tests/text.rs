use f3note::text::{decode, decode_with_limit, encode, LargeFileReason, LineEnding, LONG_LINE_CHARS};

#[test]
fn plain_utf8_is_recognised_without_guessing() {
    let t = decode("olá, mundo\n".as_bytes());
    assert_eq!(t.encoding, "UTF-8");
    assert!(!t.had_bom);
    assert!(!t.had_errors);
    assert_eq!(t.text, "olá, mundo\n");
}

#[test]
fn a_utf8_bom_is_detected_and_stripped() {
    let mut bytes = vec![0xEF, 0xBB, 0xBF];
    bytes.extend_from_slice("texto".as_bytes());
    let t = decode(&bytes);
    assert_eq!(t.encoding, "UTF-8");
    assert!(t.had_bom);
    assert_eq!(t.text, "texto");
}

#[test]
fn windows_1252_is_not_silently_mistaken_for_iso_8859_15() {
    // 0x93/0x94 are curly quotes in CP1252 and undefined control characters
    // in ISO-8859-15.
    let bytes = b"He said \x93hello\x94 and left\n";
    let t = decode(bytes);
    assert_ne!(t.encoding, "ISO-8859-15");
    assert!(
        t.text.contains('\u{201C}') || t.text.contains('\u{201D}'),
        "expected curly quotes, got {:?}",
        t.text
    );
}

#[test]
fn detects_crlf_and_normalises_it_for_the_buffer() {
    let t = decode(b"one\r\ntwo\r\nthree");
    assert_eq!(t.line_ending, LineEnding::CrLf);
    assert_eq!(t.text, "one\ntwo\nthree");
    assert!(!t.text.contains('\r'));
}

#[test]
fn detects_classic_mac_line_endings() {
    let t = decode(b"one\rtwo\rthree");
    assert_eq!(t.line_ending, LineEnding::Cr);
    assert_eq!(t.text, "one\ntwo\nthree");
}

#[test]
fn a_file_with_no_line_breaks_reports_lf() {
    let t = decode(b"just one line");
    assert_eq!(t.line_ending, LineEnding::Lf);
}

#[test]
fn mixed_endings_pick_the_dominant_one() {
    let t = decode(b"a\r\nb\r\nc\r\nd\n");
    assert_eq!(t.line_ending, LineEnding::CrLf);
    assert_eq!(t.text, "a\nb\nc\nd\n");
}

#[test]
fn a_small_file_with_one_enormous_line_triggers_reduced_mode() {
    let line = "x".repeat(LONG_LINE_CHARS + 1);
    let t = decode(line.as_bytes());
    assert!(t.byte_len < 1024 * 1024, "this is a small file");
    match t.large_file {
        Some(LargeFileReason::LongLines { longest }) => {
            assert_eq!(longest, LONG_LINE_CHARS + 1)
        }
        other => panic!("expected long-line detection, got {other:?}"),
    }
}

#[test]
fn an_ordinary_file_is_not_put_into_reduced_mode() {
    let t = decode("short\nlines\nonly\n".as_bytes());
    assert!(t.large_file.is_none());
    assert_eq!(t.longest_line, 5);
}

#[test]
fn line_length_is_measured_in_characters_not_bytes() {
    let t = decode("ááááá\n".as_bytes());
    assert_eq!(t.longest_line, 5);
}

#[test]
fn round_trips_content_through_save() {
    let original = b"alpha\r\nbeta\r\n";
    let t = decode(original);
    let saved = encode(&t.text, t.line_ending, t.encoding, t.had_bom);
    assert_eq!(saved, original);
}

#[test]
fn round_trips_a_bom_and_utf8_content() {
    let mut original = vec![0xEF, 0xBB, 0xBF];
    original.extend_from_slice("café\n".as_bytes());
    let t = decode(&original);
    let saved = encode(&t.text, t.line_ending, t.encoding, t.had_bom);
    assert_eq!(saved, original);
}

#[test]
fn an_empty_file_loads_cleanly() {
    let t = decode(b"");
    assert_eq!(t.text, "");
    assert_eq!(t.longest_line, 0);
    assert!(t.large_file.is_none());
    assert!(!t.had_errors);
}

#[test]
fn saving_preserves_the_documents_original_line_ending() {
    assert_eq!(encode("a\nb", LineEnding::CrLf, "UTF-8", false), b"a\r\nb");
}

#[test]
fn the_threshold_for_long_lines_is_configurable() {
    let t = decode_with_limit("abcdefghij\n".as_bytes(), 5);
    assert_eq!(t.large_file, Some(LargeFileReason::LongLines { longest: 10 }));
    assert_eq!(LineEnding::CrLf.label(), "CRLF");
    assert_eq!(LineEnding::Cr.as_str(), "\r");
    assert_eq!(LargeFileReason::BigFile { bytes: 1 }.short(), "large file");
}

#[test]
fn legacy_encodings_are_written_back_in_that_encoding() {
    assert_eq!(encode("café", LineEnding::Lf, "windows-1252", false), b"caf\xe9");
    assert_eq!(encode("a\nb", LineEnding::Cr, "UTF-8", true), b"\xEF\xBB\xBFa\rb");
}

#[test]
fn the_long_line_message_does_not_promise_the_problem_is_solved() {
    let message = LargeFileReason::LongLines { longest: 36_000 }.message();
    assert!(message.contains("stutter"), "{message}");
    assert!(message.contains("36000"), "{message}");
}

#[test]
fn a_large_file_reports_its_size_in_megabytes() {
    assert_eq!(
        LargeFileReason::BigFile { bytes: 60 * 1024 * 1024 }.message(),
        "Large file (60 MB) — highlighting and wrapping are off"
    );
    assert_eq!(LargeFileReason::BigFile { bytes: 5 * 512 * 1024 }.message(), "Large file (2 MB) — highlighting and wrapping are off");
    assert_eq!(LargeFileReason::BigFile { bytes: 7 * 512 * 1024 }.message(), "Large file (4 MB) — highlighting and wrapping are off");
}

#[test]
fn large_file_sizes_agree_with_floating_point_formatting() {
    for k in 0..4000u64 {
        for bytes in [k * 524_288, k * 524_288 + 1, (k << 40) + 3, u64::MAX - k] {
            let expected = format!(
                "Large file ({:.0} MB) — highlighting and wrapping are off",
                bytes as f64 / (1024.0 * 1024.0)
            );
            assert_eq!(LargeFileReason::BigFile { bytes }.message(), expected, "for {bytes} bytes");
        }
    }
}
