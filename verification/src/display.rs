//! What the panel shows, computed from the state: its place on the screen,
//! the labels, and how each note and line is presented.
use vstd::prelude::*;
use vstd::string::StringSliceAdditionalSpecFns;
use vstd::utf8::{decode_utf8, encode_utf8, encode_utf8_decode_utf8, is_char_boundary};
use crate::text::{
    chars_of, contains, find_from, lines, lines_exec, push_char, string_of, strip_prefix_all,
    strip_prefix_all_exec,
};
use crate::todo::{
    count_todo, is_todo_checked, is_todo_unchecked, line_is_checked, line_is_todo,
    line_is_unchecked, progress_of, todo_progress,
};

verus! {

/// A rectangle of terminal cells.
#[derive(Debug, PartialEq, Eq, Structural, Clone, Copy)]
pub struct Area {
    pub x: u16,
    pub y: u16,
    pub width: u16,
    pub height: u16,
}

/// ratatui's `Rect::new`: the width and height are cut so that the right
/// and bottom edges stay within `u16`.
#[verifier::external_body]
fn rect_new(x: u16, y: u16, width: u16, height: u16) -> (r: Area)
    ensures
        r.x == x,
        r.y == y,
        r.width == if width > u16::MAX - x {
            (u16::MAX - x) as u16
        } else {
            width
        },
        r.height == if height > u16::MAX - y {
            (u16::MAX - y) as u16
        } else {
            height
        },
{
    let r = ratatui::layout::Rect::new(x, y, width, height);
    Area { x: r.x, y: r.y, width: r.width, height: r.height }
}

pub open spec fn min_u16(a: u16, b: u16) -> u16 {
    if a <= b {
        a
    } else {
        b
    }
}

/// The panel: 50 columns by 32 rows in the top-right corner, cut to the
/// screen.
pub fn sticky_rect(area: Area) -> (r: Area)
    ensures
        r.x == if area.width >= 50 {
            (area.width - 50) as u16
        } else {
            0
        },
        r.y == 0,
        r.width == min_u16(50, area.width),
        r.height == min_u16(32, area.height),
        r.x + r.width <= area.width,
{
    let width: u16 = 50;
    let height: u16 = 32;
    let x = area.width.saturating_sub(width);
    rect_new(x, 0, if width <= area.width { width } else { area.width }, if height <= area.height { height } else { area.height })
}

/// The small hint shown while the panel is hidden: 24 columns of the top
/// row, at the right edge.
pub fn hint_rect(area: Area) -> (r: Area)
    ensures
        r.x == if area.width >= 24 {
            (area.width - 24) as u16
        } else {
            0
        },
        r.y == 0,
        r.width == 24,
        r.height == 1,
{
    rect_new(area.width.saturating_sub(24), 0, 24, 1)
}

// ---------------------------------------------------------------------------
// Numbers and labels
// ---------------------------------------------------------------------------

pub open spec fn digit_char(d: nat) -> char {
    if d == 0 {
        '0'
    } else if d == 1 {
        '1'
    } else if d == 2 {
        '2'
    } else if d == 3 {
        '3'
    } else if d == 4 {
        '4'
    } else if d == 5 {
        '5'
    } else if d == 6 {
        '6'
    } else if d == 7 {
        '7'
    } else if d == 8 {
        '8'
    } else {
        '9'
    }
}

/// The decimal digits of `n`, as `format!("{}", n)` writes them.
pub open spec fn decimal(n: nat) -> Seq<char>
    decreases n,
{
    if n < 10 {
        seq![digit_char(n)]
    } else {
        decimal(n / 10).push(digit_char(n % 10))
    }
}

/// The number that a text of decimal digits stands for, read from the
/// left: each character counts as its distance from `0`.
pub open spec fn digits_value(s: Seq<char>) -> int
    decreases s.len(),
{
    if s.len() == 0 {
        0
    } else {
        digits_value(s.drop_last()) * 10 + ((s.last() as int) - ('0' as int))
    }
}

proof fn lemma_digit_char(d: nat)
    requires
        d < 10,
    ensures
        '0' <= digit_char(d) <= '9',
        (digit_char(d) as int) - ('0' as int) == d,
{
}

/// `decimal(n)` is the base-ten numeral of `n`: ASCII digits only, no
/// leading zero, and read back it gives `n` again.
pub proof fn lemma_decimal_reads_back(n: nat)
    ensures
        decimal(n).len() > 0,
        forall|k: int| 0 <= k < decimal(n).len() ==> '0' <= #[trigger] decimal(n)[k] <= '9',
        n > 0 ==> decimal(n)[0] != '0',
        digits_value(decimal(n)) == n,
    decreases n,
{
    if n < 10 {
        lemma_digit_char(n);
        let d = decimal(n);
        assert(d.drop_last() =~= Seq::<char>::empty());
        assert(digits_value(d.drop_last()) == 0);
        assert(d.last() == digit_char(n));
    } else {
        let q = n / 10;
        let r = n % 10;
        lemma_decimal_reads_back(q);
        lemma_digit_char(r);
        let d = decimal(q);
        let e = decimal(n);
        assert(e == d.push(digit_char(r)));
        assert(e.drop_last() =~= d);
        assert forall|k: int| 0 <= k < e.len() implies '0' <= #[trigger] e[k] <= '9' by {
            if k < d.len() {
                assert(e[k] == d[k]);
            }
        }
        assert(e[0] == d[0]);
        assert(q * 10 + r == n);
        assert(e.last() == digit_char(r));
        assert(digits_value(e) == digits_value(d) * 10 + ((digit_char(r) as int) - ('0' as int)));
    }
}

fn digit_exec(d: usize) -> (c: char)
    requires
        d < 10,
    ensures
        c == digit_char(d as nat),
{
    if d == 0 {
        '0'
    } else if d == 1 {
        '1'
    } else if d == 2 {
        '2'
    } else if d == 3 {
        '3'
    } else if d == 4 {
        '4'
    } else if d == 5 {
        '5'
    } else if d == 6 {
        '6'
    } else if d == 7 {
        '7'
    } else if d == 8 {
        '8'
    } else {
        '9'
    }
}

fn push_decimal(out: &mut Vec<char>, n: usize)
    ensures
        final(out)@ == old(out)@ + decimal(n as nat),
    decreases n,
{
    if n >= 10 {
        push_decimal(out, n / 10);
    }
    out.push(digit_exec(n % 10));
    proof {
        if n < 10 {
            assert(n % 10 == n);
        }
        assert(final(out)@ =~= old(out)@ + decimal(n as nat));
    }
}

/// The panel's title: ` notes (n) `.
pub fn panel_title(note_count: usize) -> (r: String)
    ensures
        r@ == seq![' ', 'n', 'o', 't', 'e', 's', ' ', '('] + decimal(note_count as nat) + seq![')', ' '],
{
    let mut out: Vec<char> = vec![' ', 'n', 'o', 't', 'e', 's', ' ', '('];
    push_decimal(&mut out, note_count);
    out.push(')');
    out.push(' ');
    string_of(&out)
}

/// The question asked before a note is deleted: `  Delete "title"?`, with
/// `?` in place of the title when no note is selected.
pub fn confirm_label(title: Option<&str>) -> (r: String)
    ensures
        r@ == seq![' ', ' ', 'D', 'e', 'l', 'e', 't', 'e', ' ', '"'] + (match title {
            Some(t) => t@,
            None => seq!['?'],
        }) + seq!['"', '?'],
{
    let mut out: Vec<char> = vec![' ', ' ', 'D', 'e', 'l', 'e', 't', 'e', ' ', '"'];
    let mut name: Vec<char> = match title {
        Some(t) => chars_of(t),
        None => vec!['?'],
    };
    out.append(&mut name);
    out.push('"');
    out.push('?');
    string_of(&out)
}

/// The progress badge before a title in the list: `[done/total] `.
pub fn list_badge(done: usize, total: usize) -> (r: String)
    ensures
        r@ == seq!['['] + decimal(done as nat) + seq!['/'] + decimal(total as nat) + seq![']', ' '],
{
    let mut out: Vec<char> = vec!['['];
    push_decimal(&mut out, done);
    out.push('/');
    push_decimal(&mut out, total);
    out.push(']');
    out.push(' ');
    string_of(&out)
}

/// The progress shown after a note's title when it is open: `  done/total`.
pub fn view_progress(done: usize, total: usize) -> (r: String)
    ensures
        r@ == seq![' ', ' '] + decimal(done as nat) + seq!['/'] + decimal(total as nat),
{
    let mut out: Vec<char> = vec![' ', ' '];
    push_decimal(&mut out, done);
    out.push('/');
    push_decimal(&mut out, total);
    string_of(&out)
}

/// Whether the status message reads as an error: it mentions `deleted` or
/// `empty`.
pub fn status_is_error(msg: &str) -> (r: bool)
    ensures
        r == (contains(msg@, seq!['d', 'e', 'l', 'e', 't', 'e', 'd']) || contains(
            msg@,
            seq!['e', 'm', 'p', 't', 'y'],
        )),
{
    let v = chars_of(msg);
    let a = find_from(&v, &vec!['d', 'e', 'l', 'e', 't', 'e', 'd'], 0);
    let b = find_from(&v, &vec!['e', 'm', 'p', 't', 'y'], 0);
    a.is_some() || b.is_some()
}

// ---------------------------------------------------------------------------
// A note in the list
// ---------------------------------------------------------------------------

/// How many bytes of a title fit in the list, in a panel of `width` cells,
/// beside a badge of `badge_bytes` bytes: the width less the badge and two
/// cells.
pub open spec fn title_room(width: u16, badge_bytes: nat) -> int {
    if width >= badge_bytes + 2 {
        width - badge_bytes - 2
    } else {
        0
    }
}

/// The byte index at which a title too long for `room` bytes is cut.
pub open spec fn title_cut(room: int) -> int {
    if room >= 1 {
        room - 1
    } else {
        0
    }
}

/// The title as the list shows it beside a badge of `badge_bytes` bytes:
/// the whole title when it fits in `title_room` bytes, else its first
/// `room - 1` bytes followed by `…`. The cut must fall on a character
/// boundary.
pub fn fit_title(title: &str, width: u16, badge_bytes: usize) -> (r: String)
    requires
        badge_bytes + 2 <= usize::MAX,
        title.spec_bytes().len() > title_room(width, badge_bytes as nat) ==> is_char_boundary(
            title.spec_bytes(),
            title_cut(title_room(width, badge_bytes as nat)),
        ),
    ensures
        title.spec_bytes().len() <= title_room(width, badge_bytes as nat) ==> r@ == title@,
        title.spec_bytes().len() > title_room(width, badge_bytes as nat) ==> r@ == decode_utf8(
            title.spec_bytes().subrange(0, title_cut(title_room(width, badge_bytes as nat))),
        ).push('\u{2026}'),
{
    let room = (width as usize).saturating_sub(badge_bytes + 2);
    if title.as_bytes().len() > room {
        let cut = room.saturating_sub(1);
        let (head, _) = title.split_at(cut);
        let mut r = string_of(&chars_of(head));
        push_char(&mut r, '\u{2026}');
        proof {
            assert(encode_utf8(head@) == head.spec_bytes());
            encode_utf8_decode_utf8(head@);
        }
        r
    } else {
        string_of(&chars_of(title))
    }
}

// ---------------------------------------------------------------------------
// A note when it is open
// ---------------------------------------------------------------------------

/// How a body line is shown.
#[derive(Debug, PartialEq, Eq, Clone)]
pub enum LineLook {
    /// A checked task, with the text after its box.
    Checked(String),
    /// An unchecked task, with the text after its box.
    Unchecked(String),
    /// Any other line, shown as it is.
    Plain,
}

/// `- [x] `
pub open spec fn done_prefix() -> Seq<char> {
    seq!['-', ' ', '[', 'x', ']', ' ']
}

/// `- [X] `
pub open spec fn done_prefix_upper() -> Seq<char> {
    seq!['-', ' ', '[', 'X', ']', ' ']
}

/// `- [ ] `
pub open spec fn open_prefix() -> Seq<char> {
    seq!['-', ' ', '[', ' ', ']', ' ']
}

/// The text shown after the box of a task line: the line without its
/// leading box prefixes (`trim_start_matches`).
pub open spec fn checked_text(line: Seq<char>) -> Seq<char> {
    strip_prefix_all(strip_prefix_all(line, done_prefix()), done_prefix_upper())
}

pub open spec fn unchecked_text(line: Seq<char>) -> Seq<char> {
    strip_prefix_all(line, open_prefix())
}

/// A checked task line shows as checked with the text after `- [x] ` or
/// `- [X] `; an unchecked one as unchecked with the text after `- [ ] `;
/// any other line as it is.
pub fn line_look(line: &str) -> (r: LineLook)
    ensures
        match r {
            LineLook::Checked(t) => line_is_checked(line@) && t@ == checked_text(line@),
            LineLook::Unchecked(t) => !line_is_checked(line@) && line_is_unchecked(line@) && t@
                == unchecked_text(line@),
            LineLook::Plain => !line_is_todo(line@),
        },
{
    let v = chars_of(line);
    if is_todo_checked(line) {
        let once = strip_prefix_all_exec(&v, &vec!['-', ' ', '[', 'x', ']', ' ']);
        let twice = strip_prefix_all_exec(&once, &vec!['-', ' ', '[', 'X', ']', ' ']);
        LineLook::Checked(string_of(&twice))
    } else if is_todo_unchecked(line) {
        let t = strip_prefix_all_exec(&v, &vec!['-', ' ', '[', ' ', ']', ' ']);
        LineLook::Unchecked(string_of(&t))
    } else {
        LineLook::Plain
    }
}

/// Whether a body line is highlighted: a task line when the cursor is on
/// it, any other line when the cursor is on it and the body has tasks.
pub fn line_highlighted(look: &LineLook, is_cursor: bool, has_todos: bool) -> (r: bool)
    ensures
        r == match look {
            LineLook::Plain => is_cursor && has_todos,
            _ => is_cursor,
        },
{
    match look {
        LineLook::Plain => is_cursor && has_todos,
        _ => is_cursor,
    }
}

/// Whether any line of the body is a task line.
pub fn body_has_todos(body: &str) -> (r: bool)
    ensures
        r == (count_todo(lines(body@)) > 0),
        r == progress_of(body@) is Some,
{
    todo_progress(body).is_some()
}

// ---------------------------------------------------------------------------
// Typing
// ---------------------------------------------------------------------------

/// The byte index from which a one-line input is shown in a field of
/// `width` cells, so that the cursor stays visible.
pub open spec fn visible_start(len: nat, width: nat) -> int {
    if len >= width {
        len + 1 - width
    } else {
        0
    }
}

/// The part of a one-line input shown in a field of `width` cells: all of
/// it when shorter than the field, else its last `width - 1` bytes. The
/// field must be at least one cell wide when the input fills it, and the
/// cut must fall on a character boundary.
pub fn visible_input(input: &str, width: usize) -> (r: String)
    requires
        input.spec_bytes().len() >= width ==> width > 0,
        is_char_boundary(
            input.spec_bytes(),
            visible_start(input.spec_bytes().len(), width as nat),
        ),
    ensures
        r@ == decode_utf8(
            input.spec_bytes().subrange(
                visible_start(input.spec_bytes().len(), width as nat),
                input.spec_bytes().len() as int,
            ),
        ),
        input.spec_bytes().len() < width ==> r@ == input@,
{
    let n = input.as_bytes().len();
    let start = if n >= width {
        n - (width - 1)
    } else {
        0
    };
    let (_, tail) = input.split_at(start);
    let r = string_of(&chars_of(tail));
    proof {
        assert(encode_utf8(tail@) == tail.spec_bytes());
        encode_utf8_decode_utf8(tail@);
        encode_utf8_decode_utf8(input@);
        if n < width {
            assert(input.spec_bytes().subrange(0, n as int) =~= input.spec_bytes());
        }
    }
    r
}

/// The cursor column after the shown part of a one-line input: its length
/// in bytes, at most the field's width.
pub fn input_cursor_column(visible: &str, width: usize) -> (r: u16)
    ensures
        r == (if visible.spec_bytes().len() <= width {
            visible.spec_bytes().len() as nat
        } else {
            width as nat
        }) as u16,
{
    let n = visible.as_bytes().len();
    let m = if n <= width {
        n
    } else {
        width
    };
    m as u16
}

/// The cursor of a multi-line input, relative to the field: the byte length
/// of its last line and the number of lines less one.
pub fn body_cursor(input: &str) -> (r: (u16, u16))
    ensures
        r.0 == (if lines(input@).len() > 0 {
            encode_utf8(lines(input@).last()).len()
        } else {
            0
        }) as u16,
        r.1 == if (lines(input@).len() as u16) >= 1 {
            ((lines(input@).len() as u16) - 1) as u16
        } else {
            0
        },
{
    let ls = lines_exec(&chars_of(input));
    let n = ls.len();
    let col = if n > 0 {
        let last = string_of(&ls[n - 1]);
        proof {
            assert(ls@[n - 1]@ == lines(input@).last());
        }
        last.as_str().as_bytes().len() as u16
    } else {
        0
    };
    let count = n as u16;
    (col, count.saturating_sub(1))
}

} // verus!
