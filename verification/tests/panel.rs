use d_note::{App, Effect, Key, KeyPress, Mode, Note};

fn note(id: usize, title: &str, body: &str) -> Note {
    Note {
        id,
        title: title.to_string(),
        body: body.to_string(),
        created_at: "2024-01-01 00:00".to_string(),
    }
}

fn key(k: Key) -> KeyPress {
    KeyPress { key: k, ctrl: false }
}

fn ch(c: char) -> KeyPress {
    key(Key::Char(c))
}

fn ctrl(c: char) -> KeyPress {
    KeyPress { key: Key::Char(c), ctrl: true }
}

fn type_text(app: &mut App, s: &str) {
    for c in s.chars() {
        assert_eq!(app.handle_key(ch(c)), Effect::Continue);
    }
}

fn three() -> App {
    App::new(vec![note(1, "a", "x"), note(2, "b", "- [ ] t\nplain"), note(5, "c", "")])
}

#[test]
fn new_panel_selects_first_note() {
    let app = three();
    assert_eq!(app.mode(), Mode::List);
    assert_eq!(app.prev_mode(), Mode::List);
    assert_eq!(app.selected_index(), Some(0));
    assert_eq!(app.selected().unwrap().title, "a");
    let empty = App::new(vec![]);
    assert_eq!(empty.selected_index(), None);
    assert!(empty.selected().is_none());
    assert_eq!(empty.view_line(), 0);
    assert_eq!(empty.input(), "");
}

#[test]
fn ids_come_after_the_largest() {
    let app = three();
    assert_eq!(app.max_id(), 5);
    assert_eq!(app.next_id(), 6);
    assert_eq!(App::new(vec![]).next_id(), 1);
}

#[test]
fn add_a_note() {
    let mut app = App::new(vec![]);
    assert_eq!(app.handle_key(ch('a')), Effect::Continue);
    assert_eq!(app.mode(), Mode::AddTitle);
    type_text(&mut app, "  Hi  ");
    assert_eq!(app.handle_key(key(Key::Enter)), Effect::Continue);
    assert_eq!(app.mode(), Mode::AddBody);
    assert_eq!(app.temp_title(), "Hi");
    type_text(&mut app, "- [ ] x");
    app.handle_key(key(Key::Enter));
    type_text(&mut app, "y");
    assert_eq!(app.input(), "- [ ] x\ny");
    assert_eq!(app.handle_key(ctrl('s')), Effect::Save);
    assert_eq!(app.mode(), Mode::List);
    assert_eq!(app.notes().len(), 1);
    let n = &app.notes()[0];
    assert_eq!(n.id, 1);
    assert_eq!(n.title, "Hi");
    assert_eq!(n.body, "- [ ] x\ny");
    assert_eq!(app.selected_index(), Some(0));
    assert_eq!(app.status_msg(), "Note added.");
    assert_eq!(app.input(), "");
}

#[test]
fn empty_title_adds_nothing() {
    let mut app = three();
    app.handle_key(ch('a'));
    type_text(&mut app, "   ");
    app.handle_key(key(Key::Enter));
    assert_eq!(app.handle_key(ctrl('s')), Effect::Continue);
    assert_eq!(app.notes().len(), 3);
    assert_eq!(app.status_msg(), "Title cannot be empty.");
    assert_eq!(app.mode(), Mode::List);
}

#[test]
fn backspace_and_escape_while_typing() {
    let mut app = three();
    app.handle_key(ch('a'));
    type_text(&mut app, "abc");
    app.handle_key(key(Key::Backspace));
    assert_eq!(app.input(), "ab");
    app.handle_key(key(Key::Backspace));
    app.handle_key(key(Key::Backspace));
    app.handle_key(key(Key::Backspace));
    assert_eq!(app.input(), "");
    app.handle_key(key(Key::Esc));
    assert_eq!(app.mode(), Mode::List);
}

#[test]
fn list_navigation_wraps() {
    let mut app = three();
    app.handle_key(key(Key::Up));
    assert_eq!(app.selected_index(), Some(2));
    app.handle_key(key(Key::Down));
    assert_eq!(app.selected_index(), Some(0));
    app.handle_key(ch('j'));
    app.handle_key(ch('j'));
    assert_eq!(app.selected_index(), Some(2));
    app.handle_key(ch('j'));
    assert_eq!(app.selected_index(), Some(0));
    app.handle_key(ch('k'));
    app.handle_key(ch('k'));
    assert_eq!(app.selected_index(), Some(1));
}

#[test]
fn down_then_up_keeps_selection() {
    let mut app = three();
    for start in 0..3 {
        while app.selected_index() != Some(start) {
            app.handle_key(key(Key::Down));
        }
        app.handle_key(key(Key::Down));
        app.handle_key(key(Key::Up));
        assert_eq!(app.selected_index(), Some(start));
    }
}

#[test]
fn view_and_toggle_a_task() {
    let mut app = three();
    app.handle_key(key(Key::Down));
    assert_eq!(app.handle_key(key(Key::Enter)), Effect::Continue);
    assert_eq!(app.mode(), Mode::View);
    assert_eq!(app.view_line(), 0);
    assert_eq!(app.handle_key(ch(' ')), Effect::Save);
    assert_eq!(app.notes()[1].body, "- [x] t\nplain");
    app.handle_key(key(Key::Down));
    assert_eq!(app.view_line(), 1);
    // a plain line is not toggled
    assert_eq!(app.handle_key(ch(' ')), Effect::Continue);
    assert_eq!(app.notes()[1].body, "- [x] t\nplain");
    // the cursor stops at the last line
    app.handle_key(key(Key::Down));
    assert_eq!(app.view_line(), 1);
    app.handle_key(key(Key::Up));
    app.handle_key(key(Key::Up));
    assert_eq!(app.view_line(), 0);
    assert_eq!(app.handle_key(ch(' ')), Effect::Save);
    assert_eq!(app.notes()[1].body, "- [ ] t\nplain");
    app.handle_key(key(Key::Esc));
    assert_eq!(app.mode(), Mode::List);
}

#[test]
fn edit_a_note() {
    let mut app = three();
    app.handle_key(ch('e'));
    assert_eq!(app.mode(), Mode::EditTitle);
    assert_eq!(app.input(), "a");
    type_text(&mut app, "z");
    app.handle_key(key(Key::Enter));
    assert_eq!(app.mode(), Mode::EditBody);
    assert_eq!(app.input(), "x");
    type_text(&mut app, "!");
    assert_eq!(app.handle_key(ctrl('s')), Effect::Save);
    assert_eq!(app.notes()[0].title, "az");
    assert_eq!(app.notes()[0].body, "x!");
    assert_eq!(app.notes()[0].id, 1);
    assert_eq!(app.status_msg(), "Note updated.");
}

#[test]
fn delete_notes() {
    let mut app = three();
    app.handle_key(key(Key::Up));
    app.handle_key(ch('d'));
    assert_eq!(app.mode(), Mode::ConfirmDelete);
    app.handle_key(ch('n'));
    assert_eq!(app.mode(), Mode::List);
    app.handle_key(ch('d'));
    assert_eq!(app.handle_key(ch('y')), Effect::Save);
    assert_eq!(app.notes().len(), 2);
    assert_eq!(app.selected_index(), Some(1));
    assert_eq!(app.status_msg(), "Note deleted.");
    app.handle_key(ch('d'));
    app.handle_key(ch('y'));
    app.handle_key(ch('d'));
    app.handle_key(ch('y'));
    assert!(app.notes().is_empty());
    assert_eq!(app.selected_index(), None);
    // nothing to delete
    app.handle_key(ch('d'));
    assert_eq!(app.mode(), Mode::List);
}

#[test]
fn navigation_clears_status() {
    let mut app = three();
    app.handle_key(ch('d'));
    app.handle_key(ch('y'));
    assert_eq!(app.status_msg(), "Note deleted.");
    app.handle_key(key(Key::Down));
    assert_eq!(app.status_msg(), "");
}

#[test]
fn hide_and_show() {
    let mut app = three();
    app.handle_key(key(Key::Enter));
    assert_eq!(app.handle_key(ctrl(' ')), Effect::Continue);
    assert_eq!(app.mode(), Mode::Hidden);
    // keys are ignored while hidden
    assert_eq!(app.handle_key(ch('q')), Effect::Continue);
    assert_eq!(app.mode(), Mode::Hidden);
    app.handle_key(ctrl(' '));
    assert_eq!(app.mode(), Mode::View);
    app.handle_key(key(Key::Esc));
    app.handle_key(ch('h'));
    assert_eq!(app.mode(), Mode::Hidden);
    app.handle_key(ctrl(' '));
    assert_eq!(app.mode(), Mode::List);
}

#[test]
fn help_and_quit() {
    let mut app = three();
    app.handle_key(ch('?'));
    assert_eq!(app.mode(), Mode::Help);
    assert_eq!(app.handle_key(ch('x')), Effect::Continue);
    assert_eq!(app.mode(), Mode::Help);
    app.handle_key(ch('q'));
    assert_eq!(app.mode(), Mode::List);
    assert_eq!(app.handle_key(ch('q')), Effect::Quit);
    assert_eq!(app.handle_key(key(Key::Esc)), Effect::Quit);
}

#[test]
fn new_ids_stay_distinct() {
    let mut app = three();
    app.handle_key(ch('a'));
    type_text(&mut app, "new");
    app.handle_key(key(Key::Enter));
    app.handle_key(ctrl('s'));
    let ids: Vec<usize> = app.notes().iter().map(|n| n.id).collect();
    assert_eq!(ids, vec![1, 2, 5, 6]);
}

#[test]
fn methods_report_changes() {
    let mut app = App::new(vec![]);
    assert!(!app.delete_selected());
    assert!(!app.save_edit());
    assert!(!app.toggle_view_line());
    assert!(!app.add_note());
    assert_eq!(app.status_msg(), "Title cannot be empty.");
}

#[test]
fn toggling_moves_progress_by_one() {
    let mut app = App::new(vec![note(1, "t", "- [ ] a\n- [x] b\nc")]);
    assert_eq!(d_note::todo_progress(&app.notes()[0].body), Some((1, 2)));
    app.handle_key(key(Key::Enter));
    app.handle_key(ch(' '));
    assert_eq!(d_note::todo_progress(&app.notes()[0].body), Some((2, 2)));
    app.handle_key(key(Key::Down));
    app.handle_key(ch(' '));
    app.handle_key(key(Key::Up));
    app.handle_key(ch(' '));
    assert_eq!(d_note::todo_progress(&app.notes()[0].body), Some((0, 2)));
}

#[test]
fn selection_exists_exactly_with_notes() {
    let mut app = App::new(vec![note(1, "a", "")]);
    assert!(app.selected_index().is_some());
    app.handle_key(ch('d'));
    app.handle_key(ch('y'));
    assert!(app.notes().is_empty() && app.selected_index().is_none());
    app.handle_key(ch('a'));
    type_text(&mut app, "n");
    app.handle_key(key(Key::Enter));
    app.handle_key(ctrl('s'));
    assert_eq!(app.selected_index(), Some(0));
}
