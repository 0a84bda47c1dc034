use task_manager::manage::{bounded_text, capped, inspection_note, marked_if_cut, INSPECT_FILES};

#[test]
fn inspection_lists_stop_at_their_cap_and_say_so() {
    let (kept, cut) = capped((0..INSPECT_FILES + 1).collect::<Vec<usize>>(), INSPECT_FILES);
    assert!(cut);
    assert_eq!(kept.len(), INSPECT_FILES);
    assert_eq!(kept[INSPECT_FILES - 1], INSPECT_FILES - 1);
    let (kept, cut) = capped(vec![1, 2, 3], 3);
    assert!(!cut);
    assert_eq!(kept, vec![1, 2, 3]);
}

#[test]
fn inspection_texts_are_cut_at_their_byte_limit() {
    assert_eq!(bounded_text(b"Name:\tapp\n", 64), ("Name:\tapp\n".to_string(), false));
    assert_eq!(bounded_text(b"abcdef", 4), ("abcd".to_string(), true));
    assert_eq!(bounded_text(b"", 0), (String::new(), false));
    assert_eq!(
        inspection_note(false),
        "Read permissions may hide files or memory maps. No process memory is copied."
    );
    assert!(inspection_note(true).ends_with(" Some lists or texts reached their size limit and were truncated."));
}

#[test]
fn cut_command_lines_are_marked() {
    assert_eq!(marked_if_cut("app --x".into(), false), "app --x");
    assert_eq!(marked_if_cut("app --x".into(), true), "app --x…");
}
