//! Notes and the Markdown file that holds them.
//!
//! The file starts with the header `# Sticky Notes` and holds one block per
//! note:
//!
//! ```text
//! ## title
//! _created at_
//!
//! body
//!
//! ---
//! ```
//!
//! Blocks are separated by `---` lines. The header shares the first block
//! with the first note; when reading, a level-one heading at the start of
//! the first block is dropped before that block is read.
use vstd::prelude::*;
use crate::text::{
    chars_of, join_lines, join_lines_exec, lemma_newline_pos_is, lines, lines_exec, newline_pos,
    seq_views, slice_of, split_exec, split_on, string_of, strip_prefix_all, strip_prefix_all_exec,
    trim, trim_char, trim_char_exec, trim_chars,
};

verus! {

/// One sticky note.
#[derive(Debug, Clone)]
pub struct Note {
    pub id: usize,
    pub title: String,
    pub body: String,
    pub created_at: String,
}

/// What a note holds, as mathematical values.
pub struct NoteView {
    pub id: nat,
    pub title: Seq<char>,
    pub body: Seq<char>,
    pub created_at: Seq<char>,
}

impl View for Note {
    type V = NoteView;

    open spec fn view(&self) -> NoteView {
        NoteView {
            id: self.id as nat,
            title: self.title@,
            body: self.body@,
            created_at: self.created_at@,
        }
    }
}

pub open spec fn note_views(ns: Seq<Note>) -> Seq<NoteView> {
    ns.map_values(|n: Note| n@)
}

pub open spec fn is_digit(c: char) -> bool {
    '0' <= c && c <= '9'
}

/// A year as chrono writes `%Y`: four digits for the years 0 to 9999,
/// otherwise a sign followed by four or more digits.
pub open spec fn is_year_text(y: Seq<char>) -> bool {
    ||| y.len() == 4 && forall|i: int| 0 <= i < 4 ==> is_digit(#[trigger] y[i])
    ||| y.len() >= 5 && (y[0] == '+' || y[0] == '-') && forall|i: int|
        1 <= i < y.len() ==> is_digit(#[trigger] y[i])
}

/// `-MM-DD HH:MM`: each field two digits.
pub open spec fn is_date_tail(t: Seq<char>) -> bool {
    &&& t.len() == 12
    &&& t[0] == '-' && t[3] == '-' && t[6] == ' ' && t[9] == ':'
    &&& is_digit(t[1]) && is_digit(t[2]) && is_digit(t[4]) && is_digit(t[5])
    &&& is_digit(t[7]) && is_digit(t[8]) && is_digit(t[10]) && is_digit(t[11])
}

/// A time stamp in the form `%Y-%m-%d %H:%M`: a year, then `-MM-DD HH:MM`.
pub open spec fn is_stamp(s: Seq<char>) -> bool {
    &&& s.len() >= 16
    &&& is_year_text(s.take(s.len() - 12))
    &&& is_date_tail(s.skip(s.len() - 12))
}

/// The current local time through chrono's
/// `Local::now().format("%Y-%m-%d %H:%M")`: a year (four digits, or a sign
/// and four or more digits outside 0..=9999), then `-MM-DD HH:MM` with two
/// digits to each field. Which time it shows is not stated.
#[verifier::external_body]
fn local_timestamp() -> (r: String)
    ensures
        is_stamp(r@),
{
    chrono::Local::now().format("%Y-%m-%d %H:%M").to_string()
}

impl Note {
    /// A note stamped with the current local time.
    pub fn new(id: usize, title: String, body: String) -> (n: Note)
        ensures
            n.id == id,
            n.title@ == title@,
            n.body@ == body@,
            is_stamp(n.created_at@),
    {
        Note { id, title, body, created_at: local_timestamp() }
    }
}

// ---------------------------------------------------------------------------
// Reading the file
// ---------------------------------------------------------------------------

/// `\n---\n`, the separator between two note blocks.
pub open spec fn block_separator() -> Seq<char> {
    seq!['\n', '-', '-', '-', '\n']
}

/// `## `, the start of a title line.
pub open spec fn title_marker() -> Seq<char> {
    seq!['#', '#', ' ']
}

/// While reading the lines after the title: the time stamp found so far, the
/// body lines gathered so far, and whether the meta part is over.
pub struct MetaScan {
    pub created_at: Seq<char>,
    pub body_lines: Seq<Seq<char>>,
    pub past_meta: bool,
}

/// One line after the title: before the meta part is over, a line that
/// starts and ends with `_` gives the time stamp (stripped of its `_`s) and
/// an empty line ends the meta part; every other line belongs to the body.
pub open spec fn meta_step(st: MetaScan, line: Seq<char>) -> MetaScan {
    if !st.past_meta && line.len() > 0 && line[0] == '_' && line.last() == '_' {
        MetaScan { created_at: trim_char(line, '_'), body_lines: st.body_lines, past_meta: true }
    } else if line.len() == 0 && !st.past_meta {
        MetaScan { created_at: st.created_at, body_lines: st.body_lines, past_meta: true }
    } else {
        MetaScan { created_at: st.created_at, body_lines: st.body_lines.push(line), past_meta: st.past_meta }
    }
}

pub open spec fn scan_meta(ls: Seq<Seq<char>>) -> MetaScan
    decreases ls.len(),
{
    if ls.len() == 0 {
        MetaScan { created_at: seq![], body_lines: seq![], past_meta: false }
    } else {
        meta_step(scan_meta(ls.drop_last()), ls.last())
    }
}

/// The fields `(title, body, created_at)` that one block of the file gives,
/// or `None` when the block is blank or its title is empty or starts with
/// `#`.
pub open spec fn parse_block(block: Seq<char>) -> Option<(Seq<char>, Seq<char>, Seq<char>)> {
    let b = trim(block);
    if b.len() == 0 {
        None
    } else {
        let ls = lines(b);
        let first = if ls.len() > 0 {
            ls[0]
        } else {
            seq![]
        };
        let title = strip_prefix_all(trim(first), title_marker());
        if title.len() == 0 || title[0] == '#' {
            None
        } else {
            let st = scan_meta(ls.skip(1));
            Some((title, trim(join_lines(st.body_lines)), st.created_at))
        }
    }
}

/// The fields of every block that gives a note, in order.
pub open spec fn parse_blocks(bs: Seq<Seq<char>>) -> Seq<(Seq<char>, Seq<char>, Seq<char>)>
    decreases bs.len(),
{
    if bs.len() == 0 {
        seq![]
    } else {
        let prev = parse_blocks(bs.drop_last());
        match parse_block(bs.last()) {
            Some(f) => prev.push(f),
            None => prev,
        }
    }
}

/// The trimmed block starts with a level-one heading: `#` not followed by
/// another `#`.
pub open spec fn starts_with_heading(b: Seq<char>) -> bool {
    b.len() > 0 && b[0] == '#' && (b.len() == 1 || b[1] != '#')
}

/// The first block of the file: when it starts with a level-one heading
/// line (the file's own title, `# Sticky Notes`), that line is dropped and
/// the rest of the block is read as a block.
pub open spec fn parse_first_block(block: Seq<char>) -> Option<(Seq<char>, Seq<char>, Seq<char>)> {
    let b = trim(block);
    if starts_with_heading(b) {
        let i = newline_pos(b);
        parse_block(
            if i < b.len() {
                b.skip(i as int + 1)
            } else {
                seq![]
            },
        )
    } else {
        parse_block(block)
    }
}

/// The fields of every block of a file that gives a note, in order; the
/// first block is read by `parse_first_block`.
pub open spec fn parse_file_blocks(bs: Seq<Seq<char>>) -> Seq<(Seq<char>, Seq<char>, Seq<char>)>
    decreases bs.len(),
{
    if bs.len() == 0 {
        seq![]
    } else {
        let prev = parse_file_blocks(bs.drop_last());
        let r = if bs.len() == 1 {
            parse_first_block(bs.last())
        } else {
            parse_block(bs.last())
        };
        match r {
            Some(f) => prev.push(f),
            None => prev,
        }
    }
}

/// The notes that a file holds: one per block that gives a note, numbered
/// from 1 in file order.
pub open spec fn parsed_notes(content: Seq<char>) -> Seq<NoteView> {
    let es = parse_file_blocks(split_on(content, block_separator()));
    Seq::new(
        es.len(),
        |i: int| NoteView { id: (i + 1) as nat, title: es[i].0, body: es[i].1, created_at: es[i].2 },
    )
}

fn block_separator_exec() -> (v: Vec<char>)
    ensures
        v@ == block_separator(),
{
    vec!['\n', '-', '-', '-', '\n']
}

fn title_marker_exec() -> (v: Vec<char>)
    ensures
        v@ == title_marker(),
{
    vec!['#', '#', ' ']
}

fn parse_block_exec(block: &Vec<char>) -> (r: Option<(Vec<char>, Vec<char>, Vec<char>)>)
    ensures
        match r {
            None => parse_block(block@) is None,
            Some((t, b, c)) => parse_block(block@) == Some((t@, b@, c@)),
        },
{
    let b = trim_chars(block);
    if b.len() == 0 {
        return None;
    }
    let ls = lines_exec(&b);
    let first = if ls.len() > 0 {
        slice_of(&ls[0], 0, ls[0].len())
    } else {
        Vec::new()
    };
    proof {
        if ls@.len() > 0 {
            assert(first@ =~= seq_views(ls@)[0]);
        } else {
            assert(first@ =~= Seq::<char>::empty());
        }
    }
    let title = strip_prefix_all_exec(&trim_chars(&first), &title_marker_exec());
    if title.len() == 0 || title[0] == '#' {
        return None;
    }
    let mut created_at: Vec<char> = Vec::new();
    let mut body_lines: Vec<Vec<char>> = Vec::new();
    let mut past_meta = false;
    let mut k: usize = 1;
    let ghost rest = seq_views(ls@).skip(1);
    proof {
        if ls@.len() == 0 {
            assert(rest =~= Seq::<Seq<char>>::empty());
        }
        assert(rest.take(0) =~= Seq::<Seq<char>>::empty());
        assert(seq_views(body_lines@) =~= Seq::<Seq<char>>::empty());
        assert(created_at@ =~= Seq::<char>::empty());
    }
    while k < ls.len()
        invariant
            1 <= k,
            rest == seq_views(ls@).skip(1),
            k <= ls@.len() || (k == 1 && ls@.len() == 0),
            ({
                let st = scan_meta(rest.take(k - 1));
                &&& st.created_at == created_at@
                &&& st.body_lines == seq_views(body_lines@)
                &&& st.past_meta == past_meta
            }),
        decreases ls@.len() - k,
    {
        let line = &ls[k];
        let n = line.len();
        proof {
            let t = rest.take(k as int);
            assert(t.drop_last() =~= rest.take(k - 1));
            assert(t.last() == line@);
        }
        if !past_meta && n > 0 && line[0] == '_' && line[n - 1] == '_' {
            created_at = trim_char_exec(line, '_');
            past_meta = true;
        } else if n == 0 && !past_meta {
            past_meta = true;
        } else {
            let copy = slice_of(line, 0, n);
            let ghost before = seq_views(body_lines@);
            body_lines.push(copy);
            proof {
                assert(copy@ =~= line@);
                assert(seq_views(body_lines@) =~= before.push(line@));
            }
        }
        k = k + 1;
    }
    proof {
        if ls@.len() > 0 {
            assert(rest.take(k - 1) =~= rest);
        } else {
            assert(rest.take(k - 1) =~= rest);
        }
    }
    let body = trim_chars(&join_lines_exec(&body_lines));
    Some((title, body, created_at))
}

fn parse_first_block_exec(block: &Vec<char>) -> (r: Option<(Vec<char>, Vec<char>, Vec<char>)>)
    ensures
        match r {
            None => parse_first_block(block@) is None,
            Some((t, b, c)) => parse_first_block(block@) == Some((t@, b@, c@)),
        },
{
    let b = trim_chars(block);
    let n = b.len();
    if n > 0 && b[0] == '#' && (n == 1 || b[1] != '#') {
        let mut j: usize = 0;
        while j < n && b[j] != '\n'
            invariant
                j <= n == b@.len(),
                forall|k: int| 0 <= k < j ==> #[trigger] b@[k] != '\n',
            decreases n - j,
        {
            j = j + 1;
        }
        proof {
            lemma_newline_pos_is(b@, j as int);
        }
        let rest = if j < n {
            slice_of(&b, j + 1, n)
        } else {
            Vec::new()
        };
        proof {
            if j < n {
                assert(rest@ =~= b@.skip(j + 1));
            } else {
                assert(rest@ =~= Seq::<char>::empty());
            }
        }
        parse_block_exec(&rest)
    } else {
        parse_block_exec(block)
    }
}

/// The notes that the Markdown text `content` holds (see `parsed_notes`).
pub fn parse_notes(content: &str) -> (notes: Vec<Note>)
    ensures
        note_views(notes@) == parsed_notes(content@),
{
    let chars = chars_of(content);
    let blocks = split_exec(&chars, &block_separator_exec());
    let ghost bs = seq_views(blocks@);
    let mut notes: Vec<Note> = Vec::new();
    let mut i: usize = 0;
    assert(bs.take(0) =~= Seq::<Seq<char>>::empty());
    while i < blocks.len()
        invariant
            i <= blocks@.len(),
            bs == seq_views(blocks@),
            notes@.len() <= i,
            ({
                let es = parse_file_blocks(bs.take(i as int));
                &&& notes@.len() == es.len()
                &&& forall|j: int|
                    0 <= j < es.len() ==> (#[trigger] notes@[j])@ == (NoteView {
                        id: (j + 1) as nat,
                        title: es[j].0,
                        body: es[j].1,
                        created_at: es[j].2,
                    })
            }),
        decreases blocks@.len() - i,
    {
        proof {
            let t = bs.take(i + 1);
            assert(t.drop_last() =~= bs.take(i as int));
            assert(t.last() == blocks@[i as int]@);
        }
        let parsed = if i == 0 {
            parse_first_block_exec(&blocks[i])
        } else {
            parse_block_exec(&blocks[i])
        };
        match parsed {
            Some((title, body, created_at)) => {
                let id = notes.len() + 1;
                notes.push(
                    Note {
                        id,
                        title: string_of(&title),
                        body: string_of(&body),
                        created_at: string_of(&created_at),
                    },
                );
            },
            None => {},
        }
        i = i + 1;
    }
    proof {
        assert(bs.take(i as int) =~= bs);
        assert(note_views(notes@) =~= parsed_notes(content@));
    }
    notes
}

proof fn lemma_parse_file_blocks_titles(bs: Seq<Seq<char>>)
    ensures
        forall|i: int|
            0 <= i < parse_file_blocks(bs).len() ==> (#[trigger] parse_file_blocks(bs)[i]).0.len()
                > 0 && parse_file_blocks(bs)[i].0[0] != '#',
    decreases bs.len(),
{
    if bs.len() > 0 {
        let prev = parse_file_blocks(bs.drop_last());
        lemma_parse_file_blocks_titles(bs.drop_last());
        let r = if bs.len() == 1 {
            parse_first_block(bs.last())
        } else {
            parse_block(bs.last())
        };
        match r {
            Some(f) => {
                assert forall|i: int| 0 <= i < parse_file_blocks(bs).len() implies (
                #[trigger] parse_file_blocks(bs)[i]).0.len() > 0 && parse_file_blocks(bs)[i].0[0]
                    != '#' by {
                    if i < prev.len() {
                        assert(parse_file_blocks(bs)[i] == prev[i]);
                    }
                }
            },
            None => {},
        }
    }
}

/// The notes read from any text are numbered 1, 2, ... in order, and each
/// has a non-empty title that does not start with `#`.
pub proof fn lemma_parsed_notes_shape(content: Seq<char>)
    ensures
        forall|i: int|
            0 <= i < parsed_notes(content).len() ==> {
                let n = #[trigger] parsed_notes(content)[i];
                &&& n.id == i + 1
                &&& n.title.len() > 0
                &&& n.title[0] != '#'
            },
{
    lemma_parse_file_blocks_titles(split_on(content, block_separator()));
}

// ---------------------------------------------------------------------------
// Writing the file
// ---------------------------------------------------------------------------

/// `# Sticky Notes` and an empty line.
pub open spec fn header() -> Seq<char> {
    seq!['#', ' ', 'S', 't', 'i', 'c', 'k', 'y', ' ', 'N', 'o', 't', 'e', 's', '\n', '\n']
}

/// The lines that one note writes: `## title`, `_created at_`, an empty
/// line and the body.
pub open spec fn note_text(n: NoteView) -> Seq<char> {
    title_marker() + n.title + seq!['\n', '_'] + n.created_at + seq!['_', '\n', '\n'] + n.body
        + seq!['\n']
}

/// The text of one note in the file, closed by the separator line.
pub open spec fn note_block(n: NoteView) -> Seq<char> {
    note_text(n) + block_separator() + seq!['\n']
}

pub open spec fn notes_text(ns: Seq<NoteView>) -> Seq<char>
    decreases ns.len(),
{
    if ns.len() == 0 {
        seq![]
    } else {
        note_block(ns[0]) + notes_text(ns.drop_first())
    }
}

/// The whole file for the notes `ns`.
pub open spec fn markdown_of(ns: Seq<NoteView>) -> Seq<char> {
    header() + notes_text(ns)
}

pub proof fn lemma_notes_text_push(ns: Seq<NoteView>, n: NoteView)
    ensures
        notes_text(ns.push(n)) == notes_text(ns) + note_block(n),
    decreases ns.len(),
{
    if ns.len() == 0 {
        assert(ns.push(n).drop_first() =~= Seq::<NoteView>::empty());
        assert(notes_text(ns.push(n).drop_first()) == Seq::<char>::empty());
        assert(notes_text(ns.push(n)) =~= note_block(n));
    } else {
        lemma_notes_text_push(ns.drop_first(), n);
        assert(ns.push(n).drop_first() =~= ns.drop_first().push(n));
        assert(notes_text(ns.push(n)) =~= notes_text(ns) + note_block(n));
    }
}

fn append(out: &mut Vec<char>, s: &Vec<char>)
    ensures
        final(out)@ == old(out)@ + s@,
{
    let mut i: usize = 0;
    while i < s.len()
        invariant
            i <= s@.len(),
            out@ == old(out)@ + s@.take(i as int),
        decreases s@.len() - i,
    {
        out.push(s[i]);
        i = i + 1;
        assert(out@ =~= old(out)@ + s@.take(i as int));
    }
    assert(s@.take(i as int) =~= s@);
}

fn header_exec() -> (v: Vec<char>)
    ensures
        v@ == header(),
{
    vec!['#', ' ', 'S', 't', 'i', 'c', 'k', 'y', ' ', 'N', 'o', 't', 'e', 's', '\n', '\n']
}

/// The Markdown text that the file holds for `notes` (see `markdown_of`).
pub fn serialize_notes(notes: &Vec<Note>) -> (s: String)
    ensures
        s@ == markdown_of(note_views(notes@)),
{
    let mut out = header_exec();
    let ghost ns = note_views(notes@);
    let mut i: usize = 0;
    assert(ns.take(0) =~= Seq::<NoteView>::empty());
    while i < notes.len()
        invariant
            i <= notes@.len(),
            ns == note_views(notes@),
            out@ == header() + notes_text(ns.take(i as int)),
        decreases notes@.len() - i,
    {
        let note = &notes[i];
        let ghost before = out@;
        append(&mut out, &title_marker_exec());
        append(&mut out, &chars_of(note.title.as_str()));
        append(&mut out, &vec!['\n', '_']);
        append(&mut out, &chars_of(note.created_at.as_str()));
        append(&mut out, &vec!['_', '\n', '\n']);
        append(&mut out, &chars_of(note.body.as_str()));
        append(&mut out, &vec!['\n']);
        append(&mut out, &block_separator_exec());
        append(&mut out, &vec!['\n']);
        proof {
            assert(out@ =~= before + note_block(ns[i as int]));
            lemma_notes_text_push(ns.take(i as int), ns[i as int]);
            assert(ns.take(i + 1) =~= ns.take(i as int).push(ns[i as int]));
        }
        i = i + 1;
    }
    assert(ns.take(i as int) =~= ns);
    string_of(&out)
}

} // verus!
