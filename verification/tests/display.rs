use d_note::display::{
    body_cursor, body_has_todos, confirm_label, fit_title, hint_rect, input_cursor_column, line_highlighted,
    line_look, list_badge, panel_title, status_is_error, sticky_rect, view_progress,
    visible_input, Area, LineLook,
};

#[test]
fn panel_sits_top_right() {
    let r = sticky_rect(Area { x: 0, y: 0, width: 120, height: 40 });
    assert_eq!(r, Area { x: 70, y: 0, width: 50, height: 32 });
    let small = sticky_rect(Area { x: 0, y: 0, width: 30, height: 10 });
    assert_eq!(small, Area { x: 0, y: 0, width: 30, height: 10 });
}

#[test]
fn hint_sits_top_right() {
    assert_eq!(hint_rect(Area { x: 0, y: 0, width: 100, height: 5 }), Area { x: 76, y: 0, width: 24, height: 1 });
    assert_eq!(hint_rect(Area { x: 0, y: 0, width: 10, height: 5 }), Area { x: 0, y: 0, width: 24, height: 1 });
}

#[test]
fn labels() {
    assert_eq!(panel_title(3), " notes (3) ");
    assert_eq!(panel_title(0), " notes (0) ");
    assert_eq!(panel_title(1234), " notes (1234) ");
    assert_eq!(list_badge(2, 4), "[2/4] ");
    assert_eq!(list_badge(10, 10), "[10/10] ");
    assert_eq!(view_progress(1, 12), "  1/12");
}

#[test]
fn error_statuses() {
    assert!(status_is_error("Note deleted."));
    assert!(status_is_error("Title cannot be empty."));
    assert!(!status_is_error("Note added."));
    assert!(!status_is_error("Note updated."));
}

#[test]
fn long_titles_are_cut() {
    // room: 20 - 6 - 2 = 12 bytes
    assert_eq!(fit_title("A very long title indeed", 20, 6), "A very long\u{2026}");
    assert_eq!(fit_title("Short", 20, 6), "Short");
    assert_eq!(fit_title("exactly12byt", 20, 6), "exactly12byt");
    assert_eq!(fit_title("abc", 2, 0), "\u{2026}");
    // the cut is by bytes: "é" takes two
    assert_eq!(fit_title("ééééé", 9, 0), "ééé\u{2026}");
}

#[test]
fn typed_title_scrolls() {
    assert_eq!(visible_input("hello world", 6), "world");
    assert_eq!(visible_input("hello", 20), "hello");
    assert_eq!(visible_input("hello", 5), "ello");
    assert_eq!(input_cursor_column("world", 6), 5);
    assert_eq!(input_cursor_column("wide input", 4), 4);
}

#[test]
fn body_cursor_position() {
    assert_eq!(body_cursor("ab\ncde"), (3, 1));
    assert_eq!(body_cursor(""), (0, 0));
    assert_eq!(body_cursor("x\n"), (1, 0));
    assert_eq!(body_cursor("é"), (2, 0));
}

#[test]
fn line_looks() {
    assert_eq!(line_look("- [x] done"), LineLook::Checked("done".to_string()));
    assert_eq!(line_look("- [X] Done"), LineLook::Checked("Done".to_string()));
    assert_eq!(line_look("  - [x] indented"), LineLook::Checked("  - [x] indented".to_string()));
    assert_eq!(line_look("- [ ] todo"), LineLook::Unchecked("todo".to_string()));
    assert_eq!(line_look("- [ ]"), LineLook::Unchecked("- [ ]".to_string()));
    assert_eq!(line_look("plain"), LineLook::Plain);
}

#[test]
fn highlighting() {
    assert!(line_highlighted(&LineLook::Plain, true, true));
    assert!(!line_highlighted(&LineLook::Plain, true, false));
    assert!(line_highlighted(&LineLook::Unchecked(String::new()), true, false));
    assert!(!line_highlighted(&LineLook::Checked(String::new()), false, true));
}

#[test]
fn bodies_with_tasks() {
    assert!(body_has_todos("a\n- [ ] b"));
    assert!(!body_has_todos("a\nb"));
}

#[test]
fn confirm_label_names_the_note() {
    assert_eq!(confirm_label(Some("Groceries")), "  Delete \"Groceries\"?");
    assert_eq!(confirm_label(Some("")), "  Delete \"\"?");
    assert_eq!(confirm_label(None), "  Delete \"?\"?");
}
