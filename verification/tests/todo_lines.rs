use d_note::{is_todo, is_todo_checked, is_todo_unchecked, todo_progress, toggle_todo};

#[test]
fn unchecked_lines() {
    assert!(is_todo_unchecked("- [ ] pending task"));
    assert!(is_todo_unchecked("- [ ]"));
    assert!(is_todo_unchecked("   - [ ] indented  "));
    assert!(!is_todo_unchecked("- [ ]task"));
    assert!(!is_todo_unchecked("- [x] done"));
    assert!(!is_todo_unchecked(""));
    assert!(!is_todo_unchecked("-[ ] x"));
}

#[test]
fn checked_lines() {
    assert!(is_todo_checked("- [x] completed task"));
    assert!(is_todo_checked("- [X] Completed"));
    assert!(is_todo_checked("- [x]"));
    assert!(is_todo_checked("\t- [X]\t"));
    assert!(!is_todo_checked("- [ ] open"));
    assert!(!is_todo_checked("- [x]y"));
}

#[test]
fn other_lines_are_not_tasks() {
    assert!(!is_todo("just text"));
    assert!(!is_todo("* [ ] star bullet"));
    assert!(is_todo("- [ ] a"));
    assert!(is_todo("- [x] a"));
}

#[test]
fn unicode_whitespace_is_trimmed() {
    // U+3000 IDEOGRAPHIC SPACE and U+00A0 NO-BREAK SPACE are White_Space
    assert!(is_todo_unchecked("\u{3000}- [ ] wide"));
    assert!(is_todo_checked("\u{a0}- [x] nbsp\u{a0}"));
    // U+200B ZERO WIDTH SPACE is not
    assert!(!is_todo_unchecked("\u{200b}- [ ] zero width"));
}

#[test]
fn toggle_flips_the_box() {
    assert_eq!(toggle_todo("- [ ] buy milk"), "- [x] buy milk");
    assert_eq!(toggle_todo("- [x] buy milk"), "- [ ] buy milk");
    assert_eq!(toggle_todo("- [X] buy milk"), "- [ ] buy milk");
    assert_eq!(toggle_todo("  - [ ] indented"), "  - [x] indented");
    assert_eq!(toggle_todo("- [ ]"), "- [x]");
}

#[test]
fn toggle_leaves_other_lines() {
    assert_eq!(toggle_todo("plain text"), "plain text");
    assert_eq!(toggle_todo("- [ ]x no space"), "- [ ]x no space");
    assert_eq!(toggle_todo(""), "");
}

#[test]
fn toggle_flips_only_the_leading_box() {
    assert_eq!(toggle_todo("- [ ] a - [ ] b"), "- [x] a - [ ] b");
    assert_eq!(toggle_todo("- [X] a - [x] b"), "- [ ] a - [x] b");
    assert_eq!(toggle_todo("- [x] - [X]"), "- [ ] - [X]");
    assert_eq!(toggle_todo("\t- [x] keep - [ ] this  "), "\t- [ ] keep - [ ] this  ");
}

#[test]
fn toggle_twice_gives_back_the_line() {
    for line in [
        "- [ ] a",
        "- [x] a",
        "  - [ ] b  ",
        "- [x] a - [X] b",
        "- [ ] a - [X] b",
        "not a task",
        "- [X]x",
    ] {
        assert_eq!(toggle_todo(&toggle_todo(line)), line);
    }
    // a leading upper-case box comes back in lower case
    assert_eq!(toggle_todo(&toggle_todo("- [X] a")), "- [x] a");
    assert_eq!(toggle_todo(&toggle_todo("  - [X]")), "  - [x]");
}

#[test]
fn toggled_state_flips() {
    let l = "- [ ] a";
    let t = toggle_todo(l);
    assert!(is_todo_checked(&t) && !is_todo_unchecked(&t));
    let u = toggle_todo(&t);
    assert!(is_todo_unchecked(&u) && !is_todo_checked(&u));
}

#[test]
fn progress_counts_task_lines() {
    assert_eq!(todo_progress("no tasks here"), None);
    assert_eq!(todo_progress(""), None);
    assert_eq!(todo_progress("- [ ] a\n- [x] b\n- [X] c\ntext"), Some((2, 3)));
    assert_eq!(todo_progress("- [x] a\r\n- [ ] b\r\n"), Some((1, 2)));
    assert_eq!(todo_progress("- [x] done\n- [x] also"), Some((2, 2)));
}

#[test]
fn progress_never_exceeds_total() {
    for body in ["- [x] a", "- [ ] a\n- [ ] b", "x\n- [X] y\n- [ ] z\n- [x] w"] {
        let (done, total) = todo_progress(body).unwrap();
        assert!(total > 0 && done <= total);
    }
}
