use texted::buffer::Buffer;

fn buf(content: &str) -> Buffer {
    Buffer::new(0, String::from("f.txt"), String::from(content))
}

#[test]
fn replace_line_in_the_middle() {
    let mut b = buf("a\nb\nc\n");
    b.insert("X", 1);
    assert_eq!(b.data, "a\nX\nc\n");
    assert!(b.modified);
}

#[test]
fn insert_at_line_count_appends_without_padding() {
    let mut b = buf("a\nb\n");
    b.insert("X", 2);
    assert_eq!(b.data, "a\nb\nX\n");
}

#[test]
fn insert_past_line_count_pads_with_blank_lines() {
    let mut b = buf("a\nb\n");
    b.insert("X", 4);
    assert_eq!(b.data, "a\nb\n\n\nX\n");
}

#[test]
fn prepend_into_empty_buffer() {
    let mut b = buf("");
    b.insert("X", -1);
    assert_eq!(b.data, "X\n");
}

#[test]
fn prepend_shifts_every_line_down() {
    let mut b = buf("a\nb\n");
    b.insert("X", -1);
    assert_eq!(b.data, "X\na\nb\n");
    assert_eq!(b.render(), vec!["X", "a", "b"]);
}

#[test]
fn replace_keeps_every_other_line() {
    let mut b = buf("one\ntwo\nthree\nfour\n");
    b.insert("TWO", 1);
    assert_eq!(b.render(), vec!["one", "TWO", "three", "four"]);
}

#[test]
fn pad_yields_text_at_the_given_index() {
    let mut b = buf("a\n");
    b.insert("X", 3);
    let lines = b.render();
    assert_eq!(lines.len(), 4);
    assert_eq!(lines[0], "a");
    assert_eq!(lines[1], "");
    assert_eq!(lines[2], "");
    assert_eq!(lines[3], "X");
}

#[test]
fn content_keeps_single_trailing_newline_across_inserts() {
    let mut b = buf("");
    b.insert("one", 0);
    assert!(b.data.ends_with('\n') && !b.data.ends_with("\n\n"));
    b.insert("two", 5);
    assert!(b.data.ends_with('\n'));
    b.insert("zero", -1);
    assert!(b.data.ends_with('\n'));
    b.insert("ONE", 1);
    assert!(b.data.ends_with('\n'));
    assert_eq!(b.data, "zero\nONE\n\n\n\n\ntwo\n");
}

#[test]
fn new_buffer_is_clean_and_normalised() {
    let b = Buffer::new(7, String::from("p.txt"), String::from("abc"));
    assert_eq!(b.id, 7);
    assert_eq!(b.filepath, "p.txt");
    assert_eq!(b.data, "abc\n");
    assert!(!b.modified);

    let b2 = Buffer::new(8, String::from("q.txt"), String::from("abc\n"));
    assert_eq!(b2.data, "abc\n");

    let b3 = Buffer::new(9, String::from("r.txt"), String::from(""));
    assert_eq!(b3.data, "");
}

#[test]
fn save_is_idempotent_on_the_dirty_flag() {
    let mut b = buf("a\n");
    assert!(!b.needs_save());
    b.insert("X", 0);
    assert!(b.needs_save());
    b.mark_saved();
    assert!(!b.needs_save());
    // A second save in a row finds nothing to write.
    assert!(!b.needs_save());
    assert_eq!(b.data, "X\n");
}

#[test]
fn render_of_empty_buffer_is_empty() {
    let b = buf("");
    assert_eq!(b.render().len(), 0);
}

#[test]
fn render_restarts_from_content_each_call() {
    let b = buf("a\nb\n");
    assert_eq!(b.render(), vec!["a", "b"]);
    assert_eq!(b.render(), vec!["a", "b"]);
    assert_eq!(b.data, "a\nb\n");
}

#[test]
fn blank_lines_in_the_middle_are_kept() {
    let mut b = buf("a\n\nc\n");
    b.insert("B", 1);
    assert_eq!(b.data, "a\nB\nc\n");
    let mut b2 = buf("a\n\nc\n");
    b2.insert("X", 2);
    assert_eq!(b2.data, "a\n\nX\n");
}
