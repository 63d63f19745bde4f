use d_note::{parse_notes, serialize_notes, Note};

fn note(id: usize, title: &str, body: &str, created_at: &str) -> Note {
    Note {
        id,
        title: title.to_string(),
        body: body.to_string(),
        created_at: created_at.to_string(),
    }
}

#[test]
fn empty_file_has_no_notes() {
    assert!(parse_notes("").is_empty());
    assert!(parse_notes("# Sticky Notes\n\n").is_empty());
    assert!(parse_notes("\n---\n\n---\n").is_empty());
}

#[test]
fn blocks_become_notes_numbered_from_one() {
    let content = "## First\n_2024-01-01 10:00_\n\nbody line\n\n---\n\n## Second\n_2024-01-02 11:00_\n\n- [ ] task\n- [x] done\n\n---\n\n";
    let notes = parse_notes(content);
    assert_eq!(notes.len(), 2);
    assert_eq!(notes[0].id, 1);
    assert_eq!(notes[0].title, "First");
    assert_eq!(notes[0].created_at, "2024-01-01 10:00");
    assert_eq!(notes[0].body, "body line");
    assert_eq!(notes[1].id, 2);
    assert_eq!(notes[1].title, "Second");
    assert_eq!(notes[1].body, "- [ ] task\n- [x] done");
}

#[test]
fn heading_blocks_are_skipped() {
    let notes = parse_notes("# Header\n\n---\n\n## A\n_x_\n\nb");
    assert_eq!(notes.len(), 1);
    assert_eq!(notes[0].id, 1);
    assert_eq!(notes[0].title, "A");
    assert_eq!(notes[0].body, "b");
}

#[test]
fn title_markers_are_all_stripped() {
    let notes = parse_notes("## ## twice\nbody");
    assert_eq!(notes[0].title, "twice");
    assert_eq!(notes[0].created_at, "");
    assert_eq!(notes[0].body, "body");
}

#[test]
fn meta_part_ends_at_first_blank_line() {
    let notes = parse_notes("## T\n\n_not a stamp_\nrest");
    assert_eq!(notes[0].created_at, "");
    assert_eq!(notes[0].body, "_not a stamp_\nrest");
    let notes = parse_notes("## T\n_a_b_\n\nx");
    assert_eq!(notes[0].created_at, "a_b");
    let notes = parse_notes("## T\n___\n\nx");
    assert_eq!(notes[0].created_at, "");
}

#[test]
fn block_with_title_only() {
    let notes = parse_notes("   ## Lonely   ");
    assert_eq!(notes.len(), 1);
    assert_eq!(notes[0].title, "Lonely");
    assert_eq!(notes[0].body, "");
}

#[test]
fn serialized_file_text() {
    let text = serialize_notes(&vec![note(1, "T", "B", "C")]);
    assert_eq!(text, "# Sticky Notes\n\n## T\n_C_\n\nB\n\n---\n\n");
    assert_eq!(serialize_notes(&vec![]), "# Sticky Notes\n\n");
}

#[test]
fn reload_gives_back_every_note() {
    let notes = vec![
        note(7, "First", "one", "2024-05-01 09:00"),
        note(8, "Second", "- [ ] a\n- [x] b", "2024-05-02 10:00"),
        note(9, "Third", "", "2024-05-03 11:00"),
    ];
    let back = parse_notes(&serialize_notes(&notes));
    assert_eq!(back.len(), 3);
    for (k, (got, want)) in back.iter().zip(notes.iter()).enumerate() {
        assert_eq!(got.id, k + 1);
        assert_eq!(got.title, want.title);
        assert_eq!(got.body, want.body);
        assert_eq!(got.created_at, want.created_at);
    }
}

#[test]
fn single_note_comes_back() {
    let notes = vec![note(1, "A", "b", "t")];
    let back = parse_notes(&serialize_notes(&notes));
    assert_eq!(back.len(), 1);
    assert_eq!(back[0].id, 1);
    assert_eq!(back[0].title, "A");
    assert_eq!(back[0].body, "b");
    assert_eq!(back[0].created_at, "t");
}

#[test]
fn file_heading_is_not_a_note() {
    let notes = parse_notes("# Sticky Notes\n\n## A\n_t_\n\nb\n\n---\n\n");
    assert_eq!(notes.len(), 1);
    assert_eq!(notes[0].title, "A");
    assert_eq!(notes[0].body, "b");
    let notes = parse_notes("# Sticky Notes\n\n---\n\n## B\nx");
    assert_eq!(notes.len(), 1);
    assert_eq!(notes[0].title, "B");
    // only the first block may start with the file's heading
    let notes = parse_notes("## A\n\n---\n\n# Not a note\nrest");
    assert_eq!(notes.len(), 1);
    assert_eq!(notes[0].title, "A");
}

#[test]
fn separator_in_body_breaks_the_note() {
    let notes = vec![note(1, "h", "", ""), note(2, "x", "up\n---\ndown", "t")];
    let back = parse_notes(&serialize_notes(&notes));
    assert_eq!(back[0].title, "h");
    assert_eq!(back[1].title, "x");
    assert_eq!(back[1].body, "up");
    assert_eq!(back[2].title, "down");
}

#[test]
fn new_note_is_stamped() {
    let n = Note::new(5, "Title".to_string(), "Body".to_string());
    assert_eq!(n.id, 5);
    assert_eq!(n.title, "Title");
    assert_eq!(n.body, "Body");
    let c: Vec<char> = n.created_at.chars().collect();
    assert_eq!(c.len(), 16);
    for (i, ch) in c.iter().enumerate() {
        match i {
            4 | 7 => assert_eq!(*ch, '-'),
            10 => assert_eq!(*ch, ' '),
            13 => assert_eq!(*ch, ':'),
            _ => assert!(ch.is_ascii_digit()),
        }
    }
}
