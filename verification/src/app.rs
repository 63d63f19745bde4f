//! The state of the sticky-note panel and what each key press does to it.
//!
//! Reading the terminal, drawing and writing the notes file happen outside;
//! a key press is handed in as a `KeyPress`, and the answer says whether the
//! notes must be written back or the program must end.
use vstd::prelude::*;
use crate::note::{is_stamp, note_views, Note, NoteView};
use crate::text::{
    chars_of, join_lines, join_lines_exec, lemma_lines_no_newline, lines, lines_exec, push_char,
    seq_views, slice_of, string_of, trim, trim_chars,
};
use crate::todo::{
    is_todo, lemma_checked_xor_unchecked, lemma_count_checked_le, lemma_counts_lines_join,
    lemma_counts_update, lemma_toggle_flips, lemma_toggled_no_newline, line_is_checked,
    line_is_todo, progress_of, toggle_todo, toggled,
};

verus! {

/// What the panel shows.
#[derive(Debug, PartialEq, Eq, Structural, Clone, Copy)]
pub enum Mode {
    List,
    View,
    AddTitle,
    AddBody,
    EditTitle,
    EditBody,
    ConfirmDelete,
    Help,
    Hidden,
}

/// The key of a key press, as far as the panel tells keys apart.
#[derive(Debug, PartialEq, Eq, Structural, Clone, Copy)]
pub enum Key {
    Char(char),
    Up,
    Down,
    Enter,
    Esc,
    Backspace,
    Other,
}

/// A key press, and whether Control was held.
#[derive(Debug, PartialEq, Eq, Structural, Clone, Copy)]
pub struct KeyPress {
    pub key: Key,
    pub ctrl: bool,
}

/// What must happen after a key press.
#[derive(Debug, PartialEq, Eq, Structural, Clone, Copy)]
pub enum Effect {
    /// Nothing beyond the new state.
    Continue,
    /// The notes changed and must be written back.
    Save,
    /// The program ends.
    Quit,
}

/// The panel's state.
pub struct App {
    notes: Vec<Note>,
    selected: Option<usize>,
    mode: Mode,
    prev_mode: Mode,
    input: String,
    temp_title: String,
    temp_body: String,
    status_msg: String,
    view_line: usize,
}

/// The panel's state as mathematical values.
pub struct AppView {
    pub notes: Seq<NoteView>,
    pub selected: Option<nat>,
    pub mode: Mode,
    pub prev_mode: Mode,
    pub input: Seq<char>,
    pub temp_title: Seq<char>,
    pub temp_body: Seq<char>,
    pub status_msg: Seq<char>,
    pub view_line: nat,
}

impl View for App {
    type V = AppView;

    closed spec fn view(&self) -> AppView {
        AppView {
            notes: note_views(self.notes@),
            selected: match self.selected {
                Some(i) => Some(i as nat),
                None => None,
            },
            mode: self.mode,
            prev_mode: self.prev_mode,
            input: self.input@,
            temp_title: self.temp_title@,
            temp_body: self.temp_body@,
            status_msg: self.status_msg@,
            view_line: self.view_line as nat,
        }
    }
}

/// `String::pop`: the last character, if any, is removed.
#[verifier::external_body]
fn pop_char(s: &mut String)
    ensures
        final(s)@ == if old(s)@.len() > 0 {
            old(s)@.drop_last()
        } else {
            old(s)@
        },
{
    s.pop();
}

fn trimmed_string(s: &String) -> (r: String)
    ensures
        r@ == trim(s@),
{
    string_of(&trim_chars(&chars_of(s.as_str())))
}

/// The largest id among `ns`, or 0.
pub open spec fn max_id_of(ns: Seq<NoteView>) -> nat
    decreases ns.len(),
{
    if ns.len() == 0 {
        0
    } else {
        let m = max_id_of(ns.drop_last());
        if ns.last().id > m {
            ns.last().id
        } else {
            m
        }
    }
}

pub proof fn lemma_max_id_bounds(ns: Seq<NoteView>)
    ensures
        forall|i: int| 0 <= i < ns.len() ==> (#[trigger] ns[i]).id <= max_id_of(ns),
        ns.len() == 0 || exists|i: int| 0 <= i < ns.len() && (#[trigger] ns[i]).id == max_id_of(ns),
    decreases ns.len(),
{
    if ns.len() > 0 {
        let p = ns.drop_last();
        lemma_max_id_bounds(p);
        assert forall|i: int| 0 <= i < ns.len() implies (#[trigger] ns[i]).id <= max_id_of(ns) by {
            if i < p.len() {
                assert(ns[i] == p[i]);
            }
        }
        if ns.last().id <= max_id_of(p) && p.len() > 0 {
            let k = choose|i: int| 0 <= i < p.len() && (#[trigger] p[i]).id == max_id_of(p);
            assert(ns[k] == p[k]);
        } else {
            assert(ns[ns.len() - 1] == ns.last());
        }
    }
}

/// The lines of a note body with the task line at `k` flipped.
pub open spec fn body_with_toggled_line(body: Seq<char>, k: int) -> Seq<char> {
    let ls = lines(body);
    join_lines(ls.update(k, toggled(ls[k])))
}

/// The message shown after a note was deleted.
pub open spec fn msg_deleted() -> Seq<char> {
    seq!['N', 'o', 't', 'e', ' ', 'd', 'e', 'l', 'e', 't', 'e', 'd', '.']
}

/// The message shown when a note would get an empty title.
pub open spec fn msg_empty_title() -> Seq<char> {
    seq![
        'T', 'i', 't', 'l', 'e', ' ', 'c', 'a', 'n', 'n', 'o', 't', ' ', 'b', 'e', ' ', 'e', 'm',
        'p', 't', 'y', '.'
    ]
}

/// The message shown after a note was added.
pub open spec fn msg_added() -> Seq<char> {
    seq!['N', 'o', 't', 'e', ' ', 'a', 'd', 'd', 'e', 'd', '.']
}

/// The message shown after a note was changed.
pub open spec fn msg_updated() -> Seq<char> {
    seq!['N', 'o', 't', 'e', ' ', 'u', 'p', 'd', 'a', 't', 'e', 'd', '.']
}

fn msg_deleted_exec() -> (s: String)
    ensures
        s@ == msg_deleted(),
{
    string_of(&vec!['N', 'o', 't', 'e', ' ', 'd', 'e', 'l', 'e', 't', 'e', 'd', '.'])
}

fn msg_empty_title_exec() -> (s: String)
    ensures
        s@ == msg_empty_title(),
{
    string_of(
        &vec![
            'T', 'i', 't', 'l', 'e', ' ', 'c', 'a', 'n', 'n', 'o', 't', ' ', 'b', 'e', ' ', 'e',
            'm', 'p', 't', 'y', '.',
        ],
    )
}

fn msg_added_exec() -> (s: String)
    ensures
        s@ == msg_added(),
{
    string_of(&vec!['N', 'o', 't', 'e', ' ', 'a', 'd', 'd', 'e', 'd', '.'])
}

fn msg_updated_exec() -> (s: String)
    ensures
        s@ == msg_updated(),
{
    string_of(&vec!['N', 'o', 't', 'e', ' ', 'u', 'p', 'd', 'a', 't', 'e', 'd', '.'])
}

/// `t` is `s` after deleting the selected note (`changed` when there was
/// one): the selection stays at the same place, or on the new last note,
/// or goes when no note is left; the panel goes back to the list.
pub open spec fn deleted(s: AppView, t: AppView, changed: bool) -> bool {
    &&& changed == s.selected is Some
    &&& match s.selected {
        Some(i) => {
            let ns = s.notes.remove(i as int);
            t == AppView {
                notes: ns,
                selected: if ns.len() == 0 {
                    None
                } else if i < ns.len() {
                    Some(i)
                } else {
                    Some((ns.len() - 1) as nat)
                },
                status_msg: msg_deleted(),
                mode: Mode::List,
                ..s
            }
        },
        None => t == AppView { mode: Mode::List, ..s },
    }
}

/// `t` is `s` after adding a note from the trimmed draft (`changed` when
/// the trimmed title is not empty): the new note comes last, gets the id
/// after the largest one and a time stamp made of digits, signs, `-`, `:`
/// and spaces, and is selected; the panel goes back to the list.
pub open spec fn added(s: AppView, t: AppView, changed: bool) -> bool {
    &&& changed == (trim(s.temp_title).len() > 0)
    &&& if changed {
        let n = t.notes.last();
        &&& t.notes.len() == s.notes.len() + 1
        &&& t.notes.drop_last() == s.notes
        &&& n.id == max_id_of(s.notes) + 1
        &&& n.title == trim(s.temp_title)
        &&& n.body == trim(s.temp_body)
        &&& is_stamp(n.created_at)
        &&& t == AppView {
            notes: t.notes,
            selected: Some(s.notes.len()),
            status_msg: msg_added(),
            mode: Mode::List,
            ..s
        }
    } else {
        t == AppView { status_msg: msg_empty_title(), mode: Mode::List, ..s }
    }
}

/// `t` is `s` after storing the trimmed draft into the selected note
/// (`changed` when a note is selected and the trimmed title is not empty);
/// the panel goes back to the list.
pub open spec fn edited(s: AppView, t: AppView, changed: bool) -> bool {
    &&& changed == (s.selected is Some && trim(s.temp_title).len() > 0)
    &&& match s.selected {
        Some(i) => if trim(s.temp_title).len() > 0 {
            let n = s.notes[i as int];
            t == AppView {
                notes: s.notes.update(
                    i as int,
                    NoteView { title: trim(s.temp_title), body: trim(s.temp_body), ..n },
                ),
                status_msg: msg_updated(),
                mode: Mode::List,
                ..s
            }
        } else {
            t == AppView { status_msg: msg_empty_title(), mode: Mode::List, ..s }
        },
        None => t == AppView { mode: Mode::List, ..s },
    }
}

/// `t` is `s` after flipping the task line under the cursor of the selected
/// note (`changed` when that line exists and is a task line).
pub open spec fn line_flipped(s: AppView, t: AppView, changed: bool) -> bool {
    &&& changed == match s.selected {
        Some(i) => {
            let ls = lines(s.notes[i as int].body);
            s.view_line < ls.len() && line_is_todo(ls[s.view_line as int])
        },
        None => false,
    }
    &&& if changed {
        let i = s.selected.unwrap() as int;
        let n = s.notes[i];
        t == AppView {
            notes: s.notes.update(
                i,
                NoteView { body: body_with_toggled_line(n.body, s.view_line as int), ..n },
            ),
            ..s
        }
    } else {
        t == s
    }
}

impl App {
    /// A note is selected exactly when there are notes, and the selection
    /// points at one of them.
    pub open spec fn wf(&self) -> bool {
        &&& (self@.selected is None <==> self@.notes.len() == 0)
        &&& self@.selected matches Some(i) ==> i < self@.notes.len()
    }

    /// The panel over `notes`, in the list with the first note selected.
    pub fn new(notes: Vec<Note>) -> (app: App)
        ensures
            app.wf(),
            app@.notes == note_views(notes@),
            app@.selected == if notes@.len() > 0 {
                Some(0nat)
            } else {
                None
            },
            app@.mode == Mode::List,
            app@.prev_mode == Mode::List,
            app@.input.len() == 0,
            app@.temp_title.len() == 0,
            app@.temp_body.len() == 0,
            app@.status_msg.len() == 0,
            app@.view_line == 0,
    {
        let selected = if notes.len() > 0 {
            Some(0)
        } else {
            None
        };
        App {
            notes,
            selected,
            mode: Mode::List,
            prev_mode: Mode::List,
            input: String::new(),
            temp_title: String::new(),
            temp_body: String::new(),
            status_msg: String::new(),
            view_line: 0,
        }
    }

    pub fn notes(&self) -> (r: &Vec<Note>)
        ensures
            note_views(r@) == self@.notes,
    {
        &self.notes
    }

    pub fn selected_index(&self) -> (r: Option<usize>)
        ensures
            match r {
                Some(i) => self@.selected == Some(i as nat),
                None => self@.selected is None,
            },
    {
        self.selected
    }

    pub fn mode(&self) -> (r: Mode)
        ensures
            r == self@.mode,
    {
        self.mode
    }

    pub fn prev_mode(&self) -> (r: Mode)
        ensures
            r == self@.prev_mode,
    {
        self.prev_mode
    }

    pub fn input(&self) -> (r: &String)
        ensures
            r@ == self@.input,
    {
        &self.input
    }

    pub fn temp_title(&self) -> (r: &String)
        ensures
            r@ == self@.temp_title,
    {
        &self.temp_title
    }

    pub fn temp_body(&self) -> (r: &String)
        ensures
            r@ == self@.temp_body,
    {
        &self.temp_body
    }

    pub fn status_msg(&self) -> (r: &String)
        ensures
            r@ == self@.status_msg,
    {
        &self.status_msg
    }

    pub fn view_line(&self) -> (r: usize)
        ensures
            r == self@.view_line,
    {
        self.view_line
    }

    /// The selected note, if any.
    pub fn selected(&self) -> (r: Option<&Note>)
        requires
            self.wf(),
        ensures
            match self@.selected {
                Some(i) => r matches Some(n) && n@ == self@.notes[i as int],
                None => r is None,
            },
    {
        match self.selected {
            Some(i) => Some(&self.notes[i]),
            None => None,
        }
    }

    /// The largest note id, or 0 when there is no note.
    pub fn max_id(&self) -> (r: usize)
        ensures
            r == max_id_of(self@.notes),
    {
        let mut m: usize = 0;
        let mut i: usize = 0;
        let ghost ns = self@.notes;
        assert(ns.take(0) =~= Seq::<NoteView>::empty());
        while i < self.notes.len()
            invariant
                i <= self.notes@.len(),
                ns == note_views(self.notes@),
                m == max_id_of(ns.take(i as int)),
            decreases self.notes@.len() - i,
        {
            proof {
                assert(ns.take(i + 1).drop_last() =~= ns.take(i as int));
            }
            if self.notes[i].id > m {
                m = self.notes[i].id;
            }
            i = i + 1;
        }
        assert(ns.take(i as int) =~= ns);
        m
    }

    /// One more than the largest note id: an id that no note has.
    pub fn next_id(&self) -> (r: usize)
        requires
            max_id_of(self@.notes) < usize::MAX,
        ensures
            r == max_id_of(self@.notes) + 1,
            forall|i: int| 0 <= i < self@.notes.len() ==> (#[trigger] self@.notes[i]).id != r,
    {
        proof {
            lemma_max_id_bounds(self@.notes);
        }
        self.max_id() + 1
    }

    /// Deletes the selected note, keeping a selection at the same place when
    /// notes remain, and goes back to the list. Returns whether the notes
    /// changed.
    pub fn delete_selected(&mut self) -> (changed: bool)
        requires
            old(self).wf(),
        ensures
            final(self).wf(),
            deleted(old(self)@, final(self)@, changed),
    {
        let changed = match self.selected {
            Some(i) => {
                self.notes.remove(i);
                let n = self.notes.len();
                self.selected = if n == 0 {
                    None
                } else if i < n {
                    Some(i)
                } else {
                    Some(n - 1)
                };
                self.status_msg = msg_deleted_exec();
                proof {
                    assert(note_views(self.notes@) =~= note_views(old(self).notes@).remove(i as int));
                }
                true
            },
            None => false,
        };
        self.mode = Mode::List;
        changed
    }

    /// Adds a note from the trimmed draft title and body, selects it and
    /// goes back to the list; an empty title adds nothing. Returns whether
    /// the notes changed.
    pub fn add_note(&mut self) -> (changed: bool)
        requires
            old(self).wf(),
            trim(old(self)@.temp_title).len() > 0 ==> max_id_of(old(self)@.notes) < usize::MAX,
        ensures
            final(self).wf(),
            added(old(self)@, final(self)@, changed),
    {
        let title = trimmed_string(&self.temp_title);
        let body = trimmed_string(&self.temp_body);
        if title.as_str().is_empty() {
            proof {
                assert(title@.len() == 0);
            }
            self.status_msg = msg_empty_title_exec();
            self.mode = Mode::List;
            return false;
        }
        proof {
            assert(title@.len() > 0);
        }
        let id = self.next_id();
        let note = Note::new(id, title, body);
        let ghost before = self.notes@;
        self.notes.push(note);
        self.selected = Some(self.notes.len() - 1);
        self.status_msg = msg_added_exec();
        self.mode = Mode::List;
        proof {
            assert(note_views(self.notes@).drop_last() =~= note_views(before));
        }
        true
    }

    /// Stores the trimmed draft title and body into the selected note and
    /// goes back to the list; an empty title changes nothing. Returns whether
    /// the notes changed.
    pub fn save_edit(&mut self) -> (changed: bool)
        requires
            old(self).wf(),
        ensures
            final(self).wf(),
            edited(old(self)@, final(self)@, changed),
    {
        match self.selected {
            Some(i) => {
                let title = trimmed_string(&self.temp_title);
                if title.as_str().is_empty() {
                    self.status_msg = msg_empty_title_exec();
                    self.mode = Mode::List;
                    return false;
                }
                let body = trimmed_string(&self.temp_body);
                let ghost before = self.notes@;
                self.notes[i].title = title;
                self.notes[i].body = body;
                self.status_msg = msg_updated_exec();
                self.mode = Mode::List;
                proof {
                    assert(note_views(self.notes@) =~= note_views(before).update(
                        i as int,
                        NoteView {
                            title: trim(old(self)@.temp_title),
                            body: trim(old(self)@.temp_body),
                            ..note_views(before)[i as int]
                        },
                    ));
                }
                true
            },
            None => {
                self.mode = Mode::List;
                false
            },
        }
    }

    /// Flips the task line under the cursor of the selected note, if it is
    /// one. Returns whether the notes changed.
    pub fn toggle_view_line(&mut self) -> (changed: bool)
        requires
            old(self).wf(),
        ensures
            final(self).wf(),
            line_flipped(old(self)@, final(self)@, changed),
    {
        match self.selected {
            Some(i) => {
                let ls = lines_exec(&chars_of(self.notes[i].body.as_str()));
                let k = self.view_line;
                if k < ls.len() && is_todo(string_of(&ls[k]).as_str()) {
                    let flipped = chars_of(toggle_todo(string_of(&ls[k]).as_str()).as_str());
                    let mut new_lines: Vec<Vec<char>> = Vec::new();
                    let mut j: usize = 0;
                    let ghost target = seq_views(ls@).update(k as int, flipped@);
                    while j < ls.len()
                        invariant
                            j <= ls@.len(),
                            k < ls@.len(),
                            target == seq_views(ls@).update(k as int, flipped@),
                            seq_views(new_lines@) == target.take(j as int),
                        decreases ls@.len() - j,
                    {
                        let line = if j == k {
                            slice_of(&flipped, 0, flipped.len())
                        } else {
                            slice_of(&ls[j], 0, ls[j].len())
                        };
                        let ghost before = seq_views(new_lines@);
                        new_lines.push(line);
                        proof {
                            if j == k {
                                assert(target[j as int] == line@);
                            } else {
                                assert(target[j as int] == seq_views(ls@)[j as int]);
                                assert(target[j as int] =~= line@);
                            }
                            assert(seq_views(new_lines@) =~= before.push(line@));
                            assert(target.take(j + 1) =~= target.take(j as int).push(target[j as int]));
                        }
                        j = j + 1;
                    }
                    assert(target.take(j as int) =~= target);
                    let body = string_of(&join_lines_exec(&new_lines));
                    let ghost before = self.notes@;
                    self.notes[i].body = body;
                    proof {
                        let n = note_views(before)[i as int];
                        assert(note_views(self.notes@) =~= note_views(before).update(
                            i as int,
                            NoteView { body: body_with_toggled_line(n.body, k as int), ..n },
                        ));
                    }
                    true
                } else {
                    false
                }
            },
            None => false,
        }
    }

    /// Applies one key press (the decisions of the panel's event loop) and
    /// says whether the notes must be written back or the program must end.
    pub fn handle_key(&mut self, key: KeyPress) -> (effect: Effect)
        requires
            old(self).wf(),
            adds_note(old(self)@, key) ==> max_id_of(old(self)@.notes) < usize::MAX,
        ensures
            final(self).wf(),
            key_step(old(self)@, key, final(self)@, effect),
    {
        if key.key == Key::Char(' ') && key.ctrl {
            if self.mode == Mode::Hidden {
                self.mode = self.prev_mode;
            } else {
                self.prev_mode = self.mode;
                self.mode = Mode::Hidden;
            }
            return Effect::Continue;
        }
        match self.mode {
            Mode::Hidden => Effect::Continue,
            Mode::List => self.list_key(key.key),
            Mode::View => self.view_key(key.key),
            Mode::AddTitle | Mode::EditTitle => {
                self.title_key(key.key);
                Effect::Continue
            },
            Mode::AddBody | Mode::EditBody => self.body_key(key),
            Mode::ConfirmDelete => match key.key {
                Key::Char('y') => {
                    if self.delete_selected() {
                        Effect::Save
                    } else {
                        Effect::Continue
                    }
                },
                Key::Char('n') | Key::Esc => {
                    self.mode = Mode::List;
                    Effect::Continue
                },
                _ => Effect::Continue,
            },
            Mode::Help => {
                match key.key {
                    Key::Esc | Key::Char('q') | Key::Char('?') => {
                        self.mode = Mode::List;
                    },
                    _ => {},
                }
                Effect::Continue
            },
        }
    }

    /// Starts editing the selected note, if any.
    fn start_edit(&mut self)
        requires
            old(self).wf(),
        ensures
            final(self).wf(),
            final(self)@ == start_edit_of(old(self)@),
    {
        match self.selected {
            Some(i) => {
                let title = self.notes[i].title.clone();
                let body = self.notes[i].body.clone();
                self.temp_title = title.clone();
                self.temp_body = body;
                self.input = title;
                self.mode = Mode::EditTitle;
            },
            None => {},
        }
    }

    fn list_key(&mut self, key: Key) -> (effect: Effect)
        requires
            old(self).wf(),
            old(self)@.mode == Mode::List,
        ensures
            final(self).wf(),
            list_step(old(self)@, key, final(self)@, effect),
    {
        match key {
            Key::Char('q') | Key::Esc => {
                return Effect::Quit;
            },
            Key::Char('?') => {
                self.mode = Mode::Help;
            },
            Key::Char('h') => {
                self.prev_mode = Mode::List;
                self.mode = Mode::Hidden;
            },
            Key::Up | Key::Char('k') => {
                let n = self.notes.len();
                if n > 0 {
                    let i = match self.selected {
                        Some(i) => i,
                        None => 0,
                    };
                    self.selected = Some(
                        if i == 0 {
                            n - 1
                        } else {
                            i - 1
                        },
                    );
                }
                self.status_msg = String::new();
            },
            Key::Down | Key::Char('j') => {
                let n = self.notes.len();
                if n > 0 {
                    let i = match self.selected {
                        Some(i) => i,
                        None => 0,
                    };
                    self.selected = Some((i + 1) % n);
                }
                self.status_msg = String::new();
            },
            Key::Enter => {
                if self.selected.is_some() {
                    self.view_line = 0;
                    self.mode = Mode::View;
                }
            },
            Key::Char('a') => {
                self.temp_title = String::new();
                self.temp_body = String::new();
                self.input = String::new();
                self.mode = Mode::AddTitle;
            },
            Key::Char('e') => {
                self.start_edit();
            },
            Key::Char('d') => {
                if self.selected.is_some() {
                    self.mode = Mode::ConfirmDelete;
                }
            },
            _ => {},
        }
        Effect::Continue
    }

    /// Number of lines of the selected note's body, or 0.
    fn selected_body_len(&self) -> (r: usize)
        requires
            self.wf(),
        ensures
            r == selected_body_len_of(self@),
    {
        match self.selected {
            Some(i) => lines_exec(&chars_of(self.notes[i].body.as_str())).len(),
            None => 0,
        }
    }

    fn view_key(&mut self, key: Key) -> (effect: Effect)
        requires
            old(self).wf(),
            old(self)@.mode == Mode::View,
        ensures
            final(self).wf(),
            view_step(old(self)@, key, final(self)@, effect),
    {
        let body_len = self.selected_body_len();
        match key {
            Key::Esc | Key::Char('q') => {
                self.mode = Mode::List;
            },
            Key::Up | Key::Char('k') => {
                if self.view_line > 0 {
                    self.view_line = self.view_line - 1;
                }
            },
            Key::Down | Key::Char('j') => {
                if body_len > 0 && self.view_line < body_len - 1 {
                    self.view_line = self.view_line + 1;
                }
            },
            Key::Char(' ') => {
                if self.toggle_view_line() {
                    return Effect::Save;
                }
            },
            Key::Char('e') => {
                self.start_edit();
            },
            Key::Char('d') => {
                if self.selected.is_some() {
                    self.mode = Mode::ConfirmDelete;
                }
            },
            _ => {},
        }
        Effect::Continue
    }

    fn title_key(&mut self, key: Key)
        requires
            old(self).wf(),
            old(self)@.mode == Mode::AddTitle || old(self)@.mode == Mode::EditTitle,
        ensures
            final(self).wf(),
            final(self)@ == title_step(old(self)@, key),
    {
        match key {
            Key::Esc => {
                self.mode = Mode::List;
                self.input = String::new();
            },
            Key::Enter => {
                if self.mode == Mode::AddTitle {
                    self.temp_title = trimmed_string(&self.input);
                    self.input = String::new();
                    self.mode = Mode::AddBody;
                } else {
                    self.temp_title = trimmed_string(&self.input);
                    self.input = self.temp_body.clone();
                    self.mode = Mode::EditBody;
                }
            },
            Key::Backspace => {
                pop_char(&mut self.input);
            },
            Key::Char(c) => {
                push_char(&mut self.input, c);
            },
            _ => {},
        }
    }

    fn body_key(&mut self, key: KeyPress) -> (effect: Effect)
        requires
            old(self).wf(),
            old(self)@.mode == Mode::AddBody || old(self)@.mode == Mode::EditBody,
            adds_note(old(self)@, key) ==> max_id_of(old(self)@.notes) < usize::MAX,
        ensures
            final(self).wf(),
            body_step(old(self)@, key, final(self)@, effect),
    {
        if key.key == Key::Char('s') && key.ctrl {
            self.temp_body = self.input.clone();
            self.input = String::new();
            let changed = if self.mode == Mode::AddBody {
                self.add_note()
            } else {
                self.save_edit()
            };
            if changed {
                Effect::Save
            } else {
                Effect::Continue
            }
        } else {
            match key.key {
                Key::Esc => {
                    self.mode = Mode::List;
                    self.input = String::new();
                },
                Key::Enter => {
                    push_char(&mut self.input, '\n');
                },
                Key::Backspace => {
                    pop_char(&mut self.input);
                },
                Key::Char(c) => {
                    push_char(&mut self.input, c);
                },
                _ => {},
            }
            Effect::Continue
        }
    }
}

/// The key press that saves a draft with a title while writing a new
/// note's body, and so adds a note.
pub open spec fn adds_note(s: AppView, key: KeyPress) -> bool {
    s.mode == Mode::AddBody && key.key == Key::Char('s') && key.ctrl && trim(s.temp_title).len() > 0
}

/// `s` after starting to edit the selected note: the drafts and the input
/// take its title and body.
pub open spec fn start_edit_of(s: AppView) -> AppView {
    match s.selected {
        Some(i) => AppView {
            temp_title: s.notes[i as int].title,
            temp_body: s.notes[i as int].body,
            input: s.notes[i as int].title,
            mode: Mode::EditTitle,
            ..s
        },
        None => s,
    }
}

/// The index that a move up or down in the list selects.
pub open spec fn moved_selection(s: AppView, down: bool) -> Option<nat> {
    let n = s.notes.len();
    if n > 0 {
        let i = match s.selected {
            Some(i) => i,
            None => 0,
        };
        if down {
            Some(((i + 1) % n) as nat)
        } else if i == 0 {
            Some((n - 1) as nat)
        } else {
            Some((i - 1) as nat)
        }
    } else {
        s.selected
    }
}

/// A key press in the list of notes.
pub open spec fn list_step(s: AppView, key: Key, t: AppView, e: Effect) -> bool {
    match key {
        Key::Char('q') | Key::Esc => t == s && e == Effect::Quit,
        Key::Char('?') => t == AppView { mode: Mode::Help, ..s } && e == Effect::Continue,
        Key::Char('h') => t == AppView { prev_mode: Mode::List, mode: Mode::Hidden, ..s } && e
            == Effect::Continue,
        Key::Up | Key::Char('k') => t == AppView {
            selected: moved_selection(s, false),
            status_msg: seq![],
            ..s
        } && e == Effect::Continue,
        Key::Down | Key::Char('j') => t == AppView {
            selected: moved_selection(s, true),
            status_msg: seq![],
            ..s
        } && e == Effect::Continue,
        Key::Enter => (if s.selected is Some {
            t == AppView { view_line: 0, mode: Mode::View, ..s }
        } else {
            t == s
        }) && e == Effect::Continue,
        Key::Char('a') => t == AppView {
            temp_title: seq![],
            temp_body: seq![],
            input: seq![],
            mode: Mode::AddTitle,
            ..s
        } && e == Effect::Continue,
        Key::Char('e') => t == start_edit_of(s) && e == Effect::Continue,
        Key::Char('d') => (if s.selected is Some {
            t == AppView { mode: Mode::ConfirmDelete, ..s }
        } else {
            t == s
        }) && e == Effect::Continue,
        _ => t == s && e == Effect::Continue,
    }
}

/// Number of lines of the selected note's body, or 0.
pub open spec fn selected_body_len_of(s: AppView) -> nat {
    match s.selected {
        Some(i) => lines(s.notes[i as int].body).len(),
        None => 0,
    }
}

/// A key press while a note is shown.
pub open spec fn view_step(s: AppView, key: Key, t: AppView, e: Effect) -> bool {
    let len = selected_body_len_of(s);
    match key {
        Key::Esc | Key::Char('q') => t == AppView { mode: Mode::List, ..s } && e == Effect::Continue,
        Key::Up | Key::Char('k') => t == AppView {
            view_line: if s.view_line > 0 {
                (s.view_line - 1) as nat
            } else {
                0
            },
            ..s
        } && e == Effect::Continue,
        Key::Down | Key::Char('j') => t == AppView {
            view_line: if len > 0 && s.view_line < len - 1 {
                s.view_line + 1
            } else {
                s.view_line
            },
            ..s
        } && e == Effect::Continue,
        Key::Char(' ') => exists|changed: bool|
            line_flipped(s, t, changed) && e == if changed {
                Effect::Save
            } else {
                Effect::Continue
            },
        Key::Char('e') => t == start_edit_of(s) && e == Effect::Continue,
        Key::Char('d') => (if s.selected is Some {
            t == AppView { mode: Mode::ConfirmDelete, ..s }
        } else {
            t == s
        }) && e == Effect::Continue,
        _ => t == s && e == Effect::Continue,
    }
}

/// A key press while a title is typed.
pub open spec fn title_step(s: AppView, key: Key) -> AppView {
    match key {
        Key::Esc => AppView { mode: Mode::List, input: seq![], ..s },
        Key::Enter => if s.mode == Mode::AddTitle {
            AppView { temp_title: trim(s.input), input: seq![], mode: Mode::AddBody, ..s }
        } else {
            AppView { temp_title: trim(s.input), input: s.temp_body, mode: Mode::EditBody, ..s }
        },
        Key::Backspace => AppView {
            input: if s.input.len() > 0 {
                s.input.drop_last()
            } else {
                s.input
            },
            ..s
        },
        Key::Char(c) => AppView { input: s.input.push(c), ..s },
        _ => s,
    }
}

/// A key press while a body is typed; Control-S saves the draft.
pub open spec fn body_step(s: AppView, key: KeyPress, t: AppView, e: Effect) -> bool {
    if key.key == Key::Char('s') && key.ctrl {
        let mid = AppView { temp_body: s.input, input: seq![], ..s };
        exists|changed: bool|
            {
                &&& if s.mode == Mode::AddBody {
                    added(mid, t, changed)
                } else {
                    edited(mid, t, changed)
                }
                &&& e == if changed {
                    Effect::Save
                } else {
                    Effect::Continue
                }
            }
    } else {
        e == Effect::Continue && t == match key.key {
            Key::Esc => AppView { mode: Mode::List, input: seq![], ..s },
            Key::Enter => AppView { input: s.input.push('\n'), ..s },
            Key::Backspace => AppView {
                input: if s.input.len() > 0 {
                    s.input.drop_last()
                } else {
                    s.input
                },
                ..s
            },
            Key::Char(c) => AppView { input: s.input.push(c), ..s },
            _ => s,
        }
    }
}

/// What one key press does to the panel: Control-Space hides the panel or
/// shows it again in the mode it had; otherwise the mode decides.
pub open spec fn key_step(s: AppView, key: KeyPress, t: AppView, e: Effect) -> bool {
    if key.key == Key::Char(' ') && key.ctrl {
        e == Effect::Continue && t == if s.mode == Mode::Hidden {
            AppView { mode: s.prev_mode, ..s }
        } else {
            AppView { prev_mode: s.mode, mode: Mode::Hidden, ..s }
        }
    } else {
        match s.mode {
            Mode::Hidden => t == s && e == Effect::Continue,
            Mode::List => list_step(s, key.key, t, e),
            Mode::View => view_step(s, key.key, t, e),
            Mode::AddTitle | Mode::EditTitle => t == title_step(s, key.key) && e == Effect::Continue,
            Mode::AddBody | Mode::EditBody => body_step(s, key, t, e),
            Mode::ConfirmDelete => match key.key {
                Key::Char('y') => exists|changed: bool|
                    deleted(s, t, changed) && e == if changed {
                        Effect::Save
                    } else {
                        Effect::Continue
                    },
                Key::Char('n') | Key::Esc => t == AppView { mode: Mode::List, ..s } && e
                    == Effect::Continue,
                _ => t == s && e == Effect::Continue,
            },
            Mode::Help => (match key.key {
                Key::Esc | Key::Char('q') | Key::Char('?') => t == AppView { mode: Mode::List, ..s },
                _ => t == s,
            }) && e == Effect::Continue,
        }
    }
}

// ---------------------------------------------------------------------------
// Laws of the panel
// ---------------------------------------------------------------------------

/// Control-Space.
pub open spec fn show_hide_key() -> KeyPress {
    KeyPress { key: Key::Char(' '), ctrl: true }
}

/// Pressing Control-Space twice gives back the panel as it was, but for the
/// mode remembered for showing it again.
pub proof fn lemma_hide_show(s: AppView, t: AppView, u: AppView, e1: Effect, e2: Effect)
    requires
        key_step(s, show_hide_key(), t, e1),
        key_step(t, show_hide_key(), u, e2),
    ensures
        u == (AppView { prev_mode: u.prev_mode, ..s }),
        e1 == Effect::Continue,
        e2 == Effect::Continue,
{
}

/// In the list, moving down and then up selects the same note again.
pub proof fn lemma_down_up(s: AppView, t: AppView, u: AppView, e1: Effect, e2: Effect)
    requires
        s.mode == Mode::List,
        s.selected matches Some(i) && i < s.notes.len(),
        key_step(s, KeyPress { key: Key::Down, ctrl: false }, t, e1),
        key_step(t, KeyPress { key: Key::Up, ctrl: false }, u, e2),
    ensures
        u.selected == s.selected,
        u.notes == s.notes,
        u.mode == Mode::List,
{
    let i = s.selected.unwrap();
    let n = s.notes.len();
    if i + 1 < n {
        vstd::arithmetic::div_mod::lemma_small_mod((i + 1) as nat, n);
    } else {
        vstd::arithmetic::div_mod::lemma_mod_self_0(n as int);
    }
}

/// No two notes share an id.
pub open spec fn ids_distinct(ns: Seq<NoteView>) -> bool {
    forall|i: int, j: int| 0 <= i < ns.len() && 0 <= j < ns.len() && i != j ==> ns[i].id != ns[j].id
}

proof fn lemma_deleted_distinct(s: AppView, t: AppView, c: bool)
    requires
        deleted(s, t, c),
        ids_distinct(s.notes),
        s.selected matches Some(i) ==> i < s.notes.len(),
    ensures
        ids_distinct(t.notes),
{
    if let Some(i) = s.selected {
        let i = i as int;
        assert forall|a: int, b: int|
            0 <= a < t.notes.len() && 0 <= b < t.notes.len() && a != b implies t.notes[a].id
            != t.notes[b].id by {
            let a2 = if a < i {
                a
            } else {
                a + 1
            };
            let b2 = if b < i {
                b
            } else {
                b + 1
            };
            assert(t.notes[a] == s.notes[a2]);
            assert(t.notes[b] == s.notes[b2]);
        }
    }
}

proof fn lemma_added_distinct(s: AppView, t: AppView, c: bool)
    requires
        added(s, t, c),
        ids_distinct(s.notes),
    ensures
        ids_distinct(t.notes),
{
    lemma_max_id_bounds(s.notes);
    if c {
        let n = s.notes.len() as int;
        assert forall|a: int, b: int|
            0 <= a < t.notes.len() && 0 <= b < t.notes.len() && a != b implies t.notes[a].id
            != t.notes[b].id by {
            if a < n {
                assert(t.notes[a] == t.notes.drop_last()[a]);
            }
            if b < n {
                assert(t.notes[b] == t.notes.drop_last()[b]);
            }
        }
    }
}

proof fn lemma_same_ids_distinct(s: Seq<NoteView>, t: Seq<NoteView>)
    requires
        ids_distinct(s),
        t.len() == s.len(),
        forall|k: int| 0 <= k < s.len() ==> #[trigger] t[k].id == s[k].id,
    ensures
        ids_distinct(t),
{
    assert forall|a: int, b: int|
        0 <= a < t.len() && 0 <= b < t.len() && a != b implies t[a].id != t[b].id by {
        assert(t[a].id == s[a].id);
        assert(t[b].id == s[b].id);
    }
}

proof fn lemma_edited_distinct(s: AppView, t: AppView, c: bool)
    requires
        edited(s, t, c),
        ids_distinct(s.notes),
        s.selected matches Some(i) ==> i < s.notes.len(),
    ensures
        ids_distinct(t.notes),
{
    if s.selected is Some && trim(s.temp_title).len() > 0 {
        let i = s.selected.unwrap() as int;
        assert forall|k: int| 0 <= k < s.notes.len() implies #[trigger] t.notes[k].id
            == s.notes[k].id by {
            if k == i {
            }
        }
        lemma_same_ids_distinct(s.notes, t.notes);
    }
}

proof fn lemma_flipped_distinct(s: AppView, t: AppView, c: bool)
    requires
        line_flipped(s, t, c),
        ids_distinct(s.notes),
        s.selected matches Some(i) ==> i < s.notes.len(),
    ensures
        ids_distinct(t.notes),
{
    if c {
        let i = s.selected.unwrap() as int;
        assert forall|k: int| 0 <= k < s.notes.len() implies #[trigger] t.notes[k].id
            == s.notes[k].id by {
            if k == i {
            }
        }
        lemma_same_ids_distinct(s.notes, t.notes);
    }
}

/// Every key press keeps the note ids distinct: a new note gets an id above
/// all others, and no other change touches an id.
pub proof fn lemma_key_step_keeps_ids_distinct(s: AppView, key: KeyPress, t: AppView, e: Effect)
    requires
        key_step(s, key, t, e),
        s.selected matches Some(i) ==> i < s.notes.len(),
        ids_distinct(s.notes),
    ensures
        ids_distinct(t.notes),
{
    if key.key == Key::Char(' ') && key.ctrl {
    } else if s.mode == Mode::View && key.key == Key::Char(' ') {
        let c = choose|c: bool| line_flipped(s, t, c) && e == if c {
            Effect::Save
        } else {
            Effect::Continue
        };
        lemma_flipped_distinct(s, t, c);
    } else if (s.mode == Mode::AddBody || s.mode == Mode::EditBody) && key.key == Key::Char('s')
        && key.ctrl {
        let mid = AppView { temp_body: s.input, input: seq![], ..s };
        let c = choose|c: bool|
            {
                &&& if s.mode == Mode::AddBody {
                    added(mid, t, c)
                } else {
                    edited(mid, t, c)
                }
                &&& e == if c {
                    Effect::Save
                } else {
                    Effect::Continue
                }
            };
        if s.mode == Mode::AddBody {
            lemma_added_distinct(mid, t, c);
        } else {
            lemma_edited_distinct(mid, t, c);
        }
    } else if s.mode == Mode::ConfirmDelete && key.key == Key::Char('y') {
        let c = choose|c: bool| deleted(s, t, c) && e == if c {
            Effect::Save
        } else {
            Effect::Continue
        };
        lemma_deleted_distinct(s, t, c);
    } else {
        assert(t.notes == s.notes);
    }
}

/// Flipping the task line under the cursor moves the note's progress by
/// one: a checked line takes one from the checked count, an unchecked one
/// adds one, and the number of task lines stays.
pub proof fn lemma_toggle_moves_progress(s: AppView, t: AppView)
    requires
        line_flipped(s, t, true),
        s.selected matches Some(i) && i < s.notes.len(),
    ensures
        ({
            let i = s.selected.unwrap() as int;
            let l = lines(s.notes[i].body)[s.view_line as int];
            progress_of(s.notes[i].body) matches Some((done, total)) && progress_of(
                t.notes[i].body,
            ) == Some(
                (
                    if line_is_checked(l) {
                        (done - 1) as nat
                    } else {
                        done + 1
                    },
                    total,
                ),
            )
        }),
{
    let i = s.selected.unwrap() as int;
    let body = s.notes[i].body;
    let ls = lines(body);
    let k = s.view_line as int;
    let l = ls[k];
    let y = toggled(l);
    let ls2 = ls.update(k, y);
    assert(t.notes[i].body == join_lines(ls2));
    lemma_lines_no_newline(body);
    assert forall|c: int| 0 <= c < l.len() implies #[trigger] l[c] != '\n' by {
        assert(ls[k][c] != '\n');
    }
    lemma_toggled_no_newline(l);
    assert forall|a: int, c: int| 0 <= a < ls2.len() && 0 <= c < ls2[a].len() implies #[trigger] ls2[a][c]
        != '\n' by {
        if a == k {
            assert(ls2[a] == y);
        } else {
            assert(ls2[a] == ls[a]);
        }
    }
    lemma_counts_lines_join(ls2);
    lemma_counts_update(ls, k, y);
    lemma_toggle_flips(l);
    lemma_checked_xor_unchecked(l);
    lemma_checked_xor_unchecked(y);
    lemma_count_checked_le(ls);
}

/// Saving an edit writes the trimmed drafts into the selected note and
/// into no other: every other note, and the note count, stay as they were.
pub proof fn lemma_save_edit_writes_selected(s: AppView, t: AppView, changed: bool, i: nat)
    requires
        edited(s, t, changed),
        s.selected == Some(i),
        i < s.notes.len(),
        trim(s.temp_title).len() > 0,
    ensures
        changed,
        t.notes.len() == s.notes.len(),
        t.notes[i as int].title == trim(s.temp_title),
        t.notes[i as int].body == trim(s.temp_body),
        t.notes[i as int].id == s.notes[i as int].id,
        t.notes[i as int].created_at == s.notes[i as int].created_at,
        forall|j: int| 0 <= j < s.notes.len() && j != i ==> #[trigger] t.notes[j] == s.notes[j],
        t.selected == Some(i),
        t.mode == Mode::List,
{
}

/// Control-S while editing a body stores the typed title and body in the
/// selected note alone and asks for the file to be written.
pub proof fn lemma_edit_key_saves_selected(s: AppView, key: KeyPress, t: AppView, e: Effect, i: nat)
    requires
        key_step(s, key, t, e),
        s.mode == Mode::EditBody,
        key.key == Key::Char('s'),
        key.ctrl,
        s.selected == Some(i),
        i < s.notes.len(),
        trim(s.temp_title).len() > 0,
    ensures
        e == Effect::Save,
        t.notes.len() == s.notes.len(),
        t.notes[i as int].title == trim(s.temp_title),
        t.notes[i as int].body == trim(s.input),
        forall|j: int| 0 <= j < s.notes.len() && j != i ==> #[trigger] t.notes[j] == s.notes[j],
        t.selected == Some(i),
{
    let mid = AppView { temp_body: s.input, input: seq![], ..s };
    let c = choose|c: bool|
        edited(mid, t, c) && e == if c {
            Effect::Save
        } else {
            Effect::Continue
        };
    lemma_save_edit_writes_selected(mid, t, c, i);
}

/// Enter in the list opens the selected note with the cursor on its first
/// line, wherever the cursor was before; the notes and the selection stay.
pub proof fn lemma_open_starts_at_first_line(s: AppView, key: KeyPress, t: AppView, e: Effect)
    requires
        key_step(s, key, t, e),
        s.mode == Mode::List,
        key.key == Key::Enter,
        s.selected is Some,
    ensures
        t.mode == Mode::View,
        t.view_line == 0,
        t.selected == s.selected,
        t.notes == s.notes,
        e == Effect::Continue,
{
}

/// Adding a note puts it last and selects it: the selection is the index
/// of the note just added, which carries the trimmed drafts.
pub proof fn lemma_add_selects_new_note(s: AppView, t: AppView, changed: bool)
    requires
        added(s, t, changed),
        trim(s.temp_title).len() > 0,
    ensures
        changed,
        t.notes.len() == s.notes.len() + 1,
        t.selected == Some(s.notes.len()),
        t.notes[s.notes.len() as int].title == trim(s.temp_title),
        t.notes[s.notes.len() as int].body == trim(s.temp_body),
        forall|j: int| 0 <= j < s.notes.len() ==> #[trigger] t.notes[j] == s.notes[j],
{
    assert forall|j: int| 0 <= j < s.notes.len() implies #[trigger] t.notes[j] == s.notes[j] by {
        assert(t.notes.drop_last()[j] == t.notes[j]);
    }
}

/// Control-S while writing a new note's body adds it, selects it and asks
/// for the file to be written.
pub proof fn lemma_add_key_selects_new_note(s: AppView, key: KeyPress, t: AppView, e: Effect)
    requires
        key_step(s, key, t, e),
        adds_note(s, key),
    ensures
        e == Effect::Save,
        t.notes.len() == s.notes.len() + 1,
        t.selected == Some(s.notes.len()),
        t.notes[s.notes.len() as int].title == trim(s.temp_title),
        t.notes[s.notes.len() as int].body == trim(s.input),
{
    let mid = AppView { temp_body: s.input, input: seq![], ..s };
    let c = choose|c: bool|
        added(mid, t, c) && e == if c {
            Effect::Save
        } else {
            Effect::Continue
        };
    lemma_add_selects_new_note(mid, t, c);
}

/// Deleting with a note selected always removes exactly that note and
/// reports the change.
pub proof fn lemma_delete_reports_change(s: AppView, t: AppView, changed: bool, i: nat)
    requires
        deleted(s, t, changed),
        s.selected == Some(i),
        i < s.notes.len(),
    ensures
        changed,
        t.notes.len() + 1 == s.notes.len(),
        forall|j: int| 0 <= j < i ==> #[trigger] t.notes[j] == s.notes[j],
        forall|j: int| i <= j < t.notes.len() ==> #[trigger] t.notes[j] == s.notes[j + 1],
{
}

/// Confirming a deletion with a note selected removes it and asks for the
/// file to be written.
pub proof fn lemma_confirm_delete_saves(s: AppView, key: KeyPress, t: AppView, e: Effect, i: nat)
    requires
        key_step(s, key, t, e),
        s.mode == Mode::ConfirmDelete,
        key.key == Key::Char('y'),
        s.selected == Some(i),
        i < s.notes.len(),
    ensures
        e == Effect::Save,
        t.notes.len() + 1 == s.notes.len(),
{
    let c = choose|c: bool|
        deleted(s, t, c) && e == if c {
            Effect::Save
        } else {
            Effect::Continue
        };
    lemma_delete_reports_change(s, t, c, i);
}

/// Whenever a key press changes the notes, it asks for the file to be
/// written: no change of the notes is left unsaved.
pub proof fn lemma_note_change_is_saved(s: AppView, key: KeyPress, t: AppView, e: Effect)
    requires
        key_step(s, key, t, e),
        t.notes != s.notes,
    ensures
        e == Effect::Save,
{
    if !(key.key == Key::Char(' ') && key.ctrl) {
        match s.mode {
            Mode::View => {
                if key.key == Key::Char(' ') {
                    let c = choose|c: bool|
                        line_flipped(s, t, c) && e == if c {
                            Effect::Save
                        } else {
                            Effect::Continue
                        };
                }
            },
            Mode::AddBody | Mode::EditBody => {
                if key.key == Key::Char('s') && key.ctrl {
                    let mid = AppView { temp_body: s.input, input: seq![], ..s };
                    let c = choose|c: bool|
                        {
                            &&& if s.mode == Mode::AddBody {
                                added(mid, t, c)
                            } else {
                                edited(mid, t, c)
                            }
                            &&& e == if c {
                                Effect::Save
                            } else {
                                Effect::Continue
                            }
                        };
                }
            },
            Mode::ConfirmDelete => {
                if key.key == Key::Char('y') {
                    let c = choose|c: bool|
                        deleted(s, t, c) && e == if c {
                            Effect::Save
                        } else {
                            Effect::Continue
                        };
                }
            },
            _ => {},
        }
    }
}

/// Starting an edit loads the selected note: the title and body drafts,
/// and the input, hold that note's title and body.
pub proof fn lemma_edit_loads_selected(s: AppView, key: KeyPress, t: AppView, e: Effect, i: nat)
    requires
        key_step(s, key, t, e),
        s.mode == Mode::List || s.mode == Mode::View,
        key.key == Key::Char('e'),
        s.selected == Some(i),
    ensures
        t.mode == Mode::EditTitle,
        t.temp_title == s.notes[i as int].title,
        t.temp_body == s.notes[i as int].body,
        t.input == s.notes[i as int].title,
        t.notes == s.notes,
        t.selected == s.selected,
        e == Effect::Continue,
{
}

/// Moving down in the list selects the next note, and from the last note
/// the first; moving up selects the previous one, and from the first the
/// last. The notes are not touched.
pub proof fn lemma_list_moves(s: AppView, key: KeyPress, t: AppView, e: Effect, i: nat)
    requires
        key_step(s, key, t, e),
        s.mode == Mode::List,
        key.key == Key::Down || key.key == Key::Up,
        s.selected == Some(i),
        i < s.notes.len(),
    ensures
        key.key == Key::Down && i + 1 < s.notes.len() ==> t.selected == Some(i + 1),
        key.key == Key::Down && i + 1 == s.notes.len() ==> t.selected == Some(0nat),
        key.key == Key::Up && i > 0 ==> t.selected == Some((i - 1) as nat),
        key.key == Key::Up && i == 0 ==> t.selected == Some((s.notes.len() - 1) as nat),
        t.notes == s.notes,
        t.mode == Mode::List,
        e == Effect::Continue,
{
    let n = s.notes.len();
    if key.key == Key::Down && i + 1 < n {
        assert((i + 1) % n == i + 1) by (nonlinear_arith)
            requires
                i + 1 < n,
        ;
    }
    if key.key == Key::Down && i + 1 == n {
        assert((i + 1) % n == 0) by (nonlinear_arith)
            requires
                i + 1 == n,
        ;
    }
}

/// After a deletion the selection rests on the note that followed the
/// deleted one, or on the one before it when the deleted note was last,
/// and on nothing when no note is left.
pub proof fn lemma_delete_selects_neighbour(s: AppView, t: AppView, changed: bool, i: nat)
    requires
        deleted(s, t, changed),
        s.selected == Some(i),
        i < s.notes.len(),
    ensures
        i + 1 < s.notes.len() ==> t.selected == Some(i) && t.notes[i as int] == s.notes[i as int + 1],
        i + 1 == s.notes.len() && i > 0 ==> t.selected == Some((i - 1) as nat) && t.notes[i - 1]
            == s.notes[i - 1],
        s.notes.len() == 1 ==> t.selected is None && t.notes.len() == 0,
        t.mode == Mode::List,
{
}

/// In a shown note the cursor moves by one line and never leaves the
/// note's lines: down stops on the last line, up on the first.
pub proof fn lemma_view_cursor_moves(s: AppView, key: KeyPress, t: AppView, e: Effect)
    requires
        key_step(s, key, t, e),
        s.mode == Mode::View,
        key.key == Key::Down || key.key == Key::Up,
        s.view_line < selected_body_len_of(s),
    ensures
        t.view_line < selected_body_len_of(t),
        key.key == Key::Down && s.view_line + 1 < selected_body_len_of(s) ==> t.view_line
            == s.view_line + 1,
        key.key == Key::Up && s.view_line > 0 ==> t.view_line + 1 == s.view_line,
        t.notes == s.notes,
        t.selected == s.selected,
{
}

/// Only `q` or Esc in the list ends the program, and it does so without
/// touching the panel; in the list those keys always end it.
pub proof fn lemma_quit_only_from_list(s: AppView, key: KeyPress, t: AppView, e: Effect)
    requires
        key_step(s, key, t, e),
    ensures
        e == Effect::Quit ==> s.mode == Mode::List && (key.key == Key::Char('q') || key.key
            == Key::Esc) && t == s,
        s.mode == Mode::List && (key.key == Key::Char('q') || key.key == Key::Esc) ==> e
            == Effect::Quit,
{
    if !(key.key == Key::Char(' ') && key.ctrl) {
        match s.mode {
            Mode::View => {
                if key.key == Key::Char(' ') {
                    let c = choose|c: bool|
                        line_flipped(s, t, c) && e == if c {
                            Effect::Save
                        } else {
                            Effect::Continue
                        };
                }
            },
            Mode::AddBody | Mode::EditBody => {
                if key.key == Key::Char('s') && key.ctrl {
                    let mid = AppView { temp_body: s.input, input: seq![], ..s };
                    let c = choose|c: bool|
                        {
                            &&& if s.mode == Mode::AddBody {
                                added(mid, t, c)
                            } else {
                                edited(mid, t, c)
                            }
                            &&& e == if c {
                                Effect::Save
                            } else {
                                Effect::Continue
                            }
                        };
                }
            },
            Mode::ConfirmDelete => {
                if key.key == Key::Char('y') {
                    let c = choose|c: bool|
                        deleted(s, t, c) && e == if c {
                            Effect::Save
                        } else {
                            Effect::Continue
                        };
                }
            },
            _ => {},
        }
    }
}

} // verus!
