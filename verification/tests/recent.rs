use f3note::recent::{Recent, LIMIT};

fn strings(v: &[&str]) -> Vec<String> {
    v.iter().map(|s| s.to_string()).collect()
}

#[test]
fn blank_lines_and_stray_whitespace_are_ignored() {
    let parsed = Recent::parse("/tmp/a.txt\n\n   \n  /tmp/b.txt  \n");
    assert_eq!(parsed, strings(&["/tmp/a.txt", "/tmp/b.txt"]));
}

#[test]
fn duplicates_in_a_hand_edited_file_keep_the_first() {
    let parsed = Recent::parse("/tmp/a.txt\n/tmp/b.txt\n/tmp/a.txt\n");
    assert_eq!(parsed, strings(&["/tmp/a.txt", "/tmp/b.txt"]));
}

#[test]
fn reopening_moves_a_path_up_without_duplicating_it() {
    let list = Recent::recorded(Vec::new(), "/tmp/a.txt");
    let list = Recent::recorded(list, "/tmp/b.txt");
    let list = Recent::recorded(list, "/tmp/a.txt");
    assert_eq!(list, strings(&["/tmp/a.txt", "/tmp/b.txt"]));
    // The same path written differently is the same path.
    let list = Recent::recorded(list, "/tmp//b.txt");
    assert_eq!(list, strings(&["/tmp//b.txt", "/tmp/a.txt"]));
}

#[test]
fn the_list_is_capped_and_written_one_per_line() {
    let mut list = Vec::new();
    for i in 0..(LIMIT + 20) {
        list = Recent::recorded(list, &format!("/tmp/file{i}.txt"));
    }
    assert_eq!(list.len(), LIMIT);
    assert_eq!(list[0], format!("/tmp/file{}.txt", LIMIT + 19));
    let text = Recent::render(&list);
    assert_eq!(Recent::parse(&text), list);
    assert_eq!(Recent::render(&strings(&["/a", "bad\nname", "/b"])), "/a\n/b\n");
    assert_eq!(Recent::render(&[]), "\n");
}

#[test]
fn the_list_lives_in_the_state_directory() {
    assert_eq!(Recent::new("/home/u/.local/state/f3note").path(), "/home/u/.local/state/f3note/recent");
}

#[test]
fn files_that_are_gone_are_left_out_in_order() {
    let paths = strings(&["/tmp/a.txt", "/tmp/b.txt", "/tmp/c.txt", "/tmp/d.txt"]);
    let kept = Recent::existing(&paths, &vec![true, false, true]);
    assert_eq!(kept, strings(&["/tmp/a.txt", "/tmp/c.txt"]));
    assert!(Recent::existing(&paths, &vec![false; 4]).is_empty());
}
