use texted::program::{EditorError, Identifier, Program};

fn open_ok(p: &mut Program, path: &str, data: &str) {
    let r = p.open(String::from(path), Some(String::from(data)));
    assert_eq!(r, Ok(()));
}

#[test]
fn open_assigns_smallest_unused_ids() {
    let mut p = Program::new();
    open_ok(&mut p, "a.txt", "a\n");
    open_ok(&mut p, "b.txt", "b\n");
    open_ok(&mut p, "c.txt", "c\n");
    let ids: Vec<u16> = p.list_buffers().iter().map(|b| b.id).collect();
    assert_eq!(ids, vec![0, 1, 2]);
    p.close(&Identifier::Id(1));
    open_ok(&mut p, "d.txt", "d\n");
    let ids: Vec<u16> = p.list_buffers().iter().map(|b| b.id).collect();
    assert_eq!(ids, vec![0, 2, 1]);
}

#[test]
fn all_identifiers_stay_distinct() {
    let mut p = Program::new();
    open_ok(&mut p, "a.txt", "");
    open_ok(&mut p, "b.txt", "");
    open_ok(&mut p, "c.txt", "");
    let bufs = p.list_buffers();
    for j in 0..bufs.len() {
        for k in 0..bufs.len() {
            if j != k {
                assert_ne!(bufs[j].id, bufs[k].id);
            }
        }
    }
}

#[test]
fn open_of_open_path_dedups_and_focuses() {
    let mut p = Program::new();
    open_ok(&mut p, "a.txt", "a\n");
    open_ok(&mut p, "b.txt", "b\n");
    assert_eq!(p.current_buffer_id, Some(1));
    // Opening a.txt again creates nothing and focuses the old buffer.
    open_ok(&mut p, "a.txt", "ignored\n");
    assert_eq!(p.list_buffers().len(), 2);
    assert_eq!(p.current_buffer_id, Some(0));
    // The already-open content wins; the new data is not read in.
    let b = p.get_buffer(&Identifier::Id(0)).unwrap();
    assert_eq!(b.data, "a\n");
}

#[test]
fn open_unreadable_file_fails_and_adds_nothing() {
    let mut p = Program::new();
    let r = p.open(String::from("missing.txt"), None);
    assert_eq!(r, Err(EditorError::ReadFailure));
    assert_eq!(p.list_buffers().len(), 0);
    assert_eq!(p.current_buffer_id, None);
}

#[test]
fn close_removes_by_id_and_clears_focus() {
    let mut p = Program::new();
    open_ok(&mut p, "a.txt", "a\n");
    open_ok(&mut p, "b.txt", "b\n");
    p.focus(&Identifier::Id(1)).unwrap();
    p.close(&Identifier::Id(0));
    let bufs = p.list_buffers();
    assert_eq!(bufs.len(), 1);
    assert_eq!(bufs[0].id, 1);
    assert_eq!(bufs[0].filepath, "b.txt");
    // Closing any buffer drops the focus, even when the focused one stays.
    assert_eq!(p.current_buffer_id, None);
}

#[test]
fn close_removes_by_path() {
    let mut p = Program::new();
    open_ok(&mut p, "a.txt", "a\n");
    open_ok(&mut p, "b.txt", "b\n");
    p.close(&Identifier::Path(String::from("b.txt")));
    let bufs = p.list_buffers();
    assert_eq!(bufs.len(), 1);
    assert_eq!(bufs[0].filepath, "a.txt");
    assert_eq!(p.current_buffer_id, None);
}

#[test]
fn close_of_unknown_reference_only_clears_focus() {
    let mut p = Program::new();
    open_ok(&mut p, "a.txt", "a\n");
    p.close(&Identifier::Id(9));
    assert_eq!(p.list_buffers().len(), 1);
    assert_eq!(p.current_buffer_id, None);
}

#[test]
fn get_buffer_resolves_by_id_and_path() {
    let mut p = Program::new();
    open_ok(&mut p, "a.txt", "a\n");
    open_ok(&mut p, "b.txt", "b\n");
    assert_eq!(p.get_buffer(&Identifier::Id(1)).unwrap().filepath, "b.txt");
    let by_path = p.get_buffer(&Identifier::Path(String::from("a.txt"))).unwrap();
    assert_eq!(by_path.id, 0);
    assert!(p.get_buffer(&Identifier::Id(5)).is_none());
    assert!(p.get_buffer(&Identifier::Path(String::from("z.txt"))).is_none());
}

#[test]
fn focus_of_unknown_reference_is_reported_and_keeps_focus() {
    let mut p = Program::new();
    open_ok(&mut p, "a.txt", "a\n");
    assert_eq!(p.current_buffer_id, Some(0));
    let r = p.focus(&Identifier::Path(String::from("z.txt")));
    assert_eq!(r, Err(EditorError::NotFound));
    assert_eq!(p.current_buffer_id, Some(0));
}

#[test]
fn insert_without_focus_is_reported() {
    let mut p = Program::new();
    let r = p.insert("X", 0);
    assert_eq!(r, Err(EditorError::NoFocus));
}

#[test]
fn insert_goes_to_the_focused_buffer() {
    let mut p = Program::new();
    open_ok(&mut p, "a.txt", "a\n");
    open_ok(&mut p, "b.txt", "b\n");
    p.focus(&Identifier::Id(0)).unwrap();
    p.insert("X", 1).unwrap();
    assert_eq!(p.get_buffer(&Identifier::Id(0)).unwrap().data, "a\nX\n");
    assert_eq!(p.get_buffer(&Identifier::Id(1)).unwrap().data, "b\n");
}

#[test]
fn focused_buffer_and_saving() {
    let mut p = Program::new();
    let r = p.focused_buffer();
    assert_eq!(r.err(), Some(EditorError::NoFocus));
    open_ok(&mut p, "a.txt", "a\n");
    p.insert("X", 0).unwrap();
    let (id, dirty) = {
        let b = p.focused_buffer().unwrap();
        (b.id, b.needs_save())
    };
    assert!(dirty);
    p.mark_saved(id);
    assert!(!p.focused_buffer().unwrap().needs_save());
    assert_eq!(p.focused_buffer().unwrap().data, "X\n");
}

#[test]
fn open_with_no_data_still_focuses_an_open_path() {
    let mut p = Program::new();
    open_ok(&mut p, "a.txt", "a\n");
    open_ok(&mut p, "b.txt", "b\n");
    // Re-opening a known path needs no file data at all.
    let r = p.open(String::from("a.txt"), None);
    assert_eq!(r, Ok(()));
    assert_eq!(p.current_buffer_id, Some(0));
    assert_eq!(p.list_buffers().len(), 2);
}

#[test]
fn mark_saved_of_unknown_id_changes_nothing() {
    let mut p = Program::new();
    open_ok(&mut p, "a.txt", "a\n");
    p.insert("X", 0).unwrap();
    p.mark_saved(42);
    assert!(p.get_buffer(&Identifier::Id(0)).unwrap().needs_save());
}

#[test]
fn list_buffers_keeps_registry_order() {
    let mut p = Program::new();
    open_ok(&mut p, "a.txt", "");
    open_ok(&mut p, "b.txt", "");
    open_ok(&mut p, "c.txt", "");
    let paths: Vec<String> = p.list_buffers().iter().map(|b| b.filepath.clone()).collect();
    assert_eq!(paths, vec!["a.txt", "b.txt", "c.txt"]);
}
