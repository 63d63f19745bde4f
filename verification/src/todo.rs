//! Markdown task lines: `- [ ] pending` and `- [x] done`.
use vstd::prelude::*;
use crate::text::{
    chars_of, equals_exec, is_white_space, join_lines, leading_ws, lemma_join_lines_cons,
    lemma_leading_ws_is, lemma_lines_cut, lemma_lines_single, lemma_trim_bounds, lemma_trim_is,
    lemma_trim_noop, lemma_trim_strip_cr, lines, lines_exec, occurs_at, seq_views, slice_of,
    starts_with, string_of, strip_cr, trim, trim_bounds, trim_bounds_at,
};

verus! {

/// `- [ ]`
pub open spec fn open_box() -> Seq<char> {
    seq!['-', ' ', '[', ' ', ']']
}

/// `- [x]`
pub open spec fn done_box() -> Seq<char> {
    seq!['-', ' ', '[', 'x', ']']
}

/// `- [X]`
pub open spec fn done_box_upper() -> Seq<char> {
    seq!['-', ' ', '[', 'X', ']']
}

/// `t` is the checkbox `m` alone or followed by a space.
pub open spec fn has_box(t: Seq<char>, m: Seq<char>) -> bool {
    starts_with(t, m.push(' ')) || t == m
}

/// The trimmed line is `- [ ]`, alone or followed by a space.
pub open spec fn line_is_unchecked(line: Seq<char>) -> bool {
    has_box(trim(line), open_box())
}

/// The trimmed line is `- [x]` or `- [X]`, alone or followed by a space.
pub open spec fn line_is_checked(line: Seq<char>) -> bool {
    has_box(trim(line), done_box()) || has_box(trim(line), done_box_upper())
}

pub open spec fn line_is_todo(line: Seq<char>) -> bool {
    line_is_unchecked(line) || line_is_checked(line)
}

/// The line with its leading checkbox flipped: `- [ ]` becomes `- [x]`,
/// and `- [x]` or `- [X]` becomes `- [ ]`. The whitespace before the box
/// and the text after it stay as they are; a line that is no task line is
/// left unchanged.
pub open spec fn toggled(line: Seq<char>) -> Seq<char> {
    if line_is_unchecked(line) {
        replaced(line, leading_ws(line) as int, done_box())
    } else if line_is_checked(line) {
        replaced(line, leading_ws(line) as int, open_box())
    } else {
        line
    }
}

/// Number of task lines among `ls`.
pub open spec fn count_todo(ls: Seq<Seq<char>>) -> nat
    decreases ls.len(),
{
    if ls.len() == 0 {
        0
    } else {
        count_todo(ls.drop_last()) + if line_is_todo(ls.last()) {
            1nat
        } else {
            0nat
        }
    }
}

/// Number of checked task lines among `ls`.
pub open spec fn count_checked(ls: Seq<Seq<char>>) -> nat
    decreases ls.len(),
{
    if ls.len() == 0 {
        0
    } else {
        count_checked(ls.drop_last()) + if line_is_checked(ls.last()) {
            1nat
        } else {
            0nat
        }
    }
}

/// `(checked, total)` task lines of a note body, or `None` when it has none.
pub open spec fn progress_of(body: Seq<char>) -> Option<(nat, nat)> {
    let ls = lines(body);
    if count_todo(ls) == 0 {
        None
    } else {
        Some((count_checked(ls), count_todo(ls)))
    }
}

pub fn open_box_exec() -> (v: Vec<char>)
    ensures
        v@ == open_box(),
{
    vec!['-', ' ', '[', ' ', ']']
}

pub fn done_box_exec() -> (v: Vec<char>)
    ensures
        v@ == done_box(),
{
    vec!['-', ' ', '[', 'x', ']']
}

pub fn done_box_upper_exec() -> (v: Vec<char>)
    ensures
        v@ == done_box_upper(),
{
    vec!['-', ' ', '[', 'X', ']']
}

/// `true` when the trimmed segment `s[a..b]` is `mark` alone or `mark`
/// followed by a space.
fn segment_has_box(s: &Vec<char>, a: usize, b: usize, mark: &Vec<char>) -> (r: bool)
    requires
        a <= b <= s@.len(),
        mark@.len() == 5,
    ensures
        r == has_box(s@.subrange(a as int, b as int), mark@),
{
    let t = slice_of(s, a, b);
    if t.len() < 5 {
        assert(!(t@ =~= mark@));
        return false;
    }
    let head = slice_of(&t, 0, 5);
    let is_mark = equals_exec(&head, mark);
    proof {
        assert(head@ =~= t@.take(5));
    }
    if !is_mark {
        proof {
            if t@ == mark@ {
                assert(head@ =~= mark@);
            }
            if starts_with(t@, mark@.push(' ')) {
                assert(t@.take(6).take(5) =~= head@);
                assert(mark@.push(' ').take(5) =~= mark@);
            }
        }
        return false;
    }
    if t.len() == 5 {
        assert(t@ =~= mark@);
        return true;
    }
    let r = t[5] == ' ';
    proof {
        if r {
            assert(t@.take(6) =~= mark@.push(' '));
        } else {
            assert(t@.take(6)[5] != mark@.push(' ')[5]);
        }
    }
    r
}

fn chars_unchecked(line: &Vec<char>) -> (r: bool)
    ensures
        r == line_is_unchecked(line@),
{
    let (a, b) = trim_bounds(line);
    let m = open_box_exec();
    segment_has_box(line, a, b, &m)
}

fn chars_checked(line: &Vec<char>) -> (r: bool)
    ensures
        r == line_is_checked(line@),
{
    let (a, b) = trim_bounds(line);
    let m = done_box_exec();
    let u = done_box_upper_exec();
    segment_has_box(line, a, b, &m) || segment_has_box(line, a, b, &u)
}

/// Whether the line, once trimmed, is an unchecked task: `- [ ]` alone or
/// followed by a space.
pub fn is_todo_unchecked(line: &str) -> (r: bool)
    ensures
        r == line_is_unchecked(line@),
{
    let v = chars_of(line);
    chars_unchecked(&v)
}

/// Whether the line, once trimmed, is a checked task: `- [x]` or `- [X]`,
/// alone or followed by a space.
pub fn is_todo_checked(line: &str) -> (r: bool)
    ensures
        r == line_is_checked(line@),
{
    let v = chars_of(line);
    chars_checked(&v)
}

/// Whether the line is a task line, checked or not.
pub fn is_todo(line: &str) -> (r: bool)
    ensures
        r == line_is_todo(line@),
{
    is_todo_unchecked(line) || is_todo_checked(line)
}

/// `l` with the five characters at `q` replaced by `m`.
fn with_box_at(l: &Vec<char>, q: usize, m: &Vec<char>) -> (r: Vec<char>)
    requires
        q + 5 <= l@.len(),
        m@.len() == 5,
    ensures
        r@ == replaced(l@, q as int, m@),
{
    let ghost want = replaced(l@, q as int, m@);
    let mut r: Vec<char> = Vec::new();
    let mut i: usize = 0;
    while i < l.len()
        invariant
            i <= l@.len(),
            q + 5 <= l@.len(),
            m@.len() == 5,
            want == replaced(l@, q as int, m@),
            want.len() == l@.len(),
            r@ == want.take(i as int),
        decreases l@.len() - i,
    {
        let c = if q <= i && i < q + 5 {
            m[i - q]
        } else {
            l[i]
        };
        proof {
            if i < q {
                assert(want[i as int] == l@.take(q as int)[i as int]);
            } else if i < q + 5 {
                assert(want[i as int] == m@[i - q]);
            } else {
                assert(want[i as int] == l@.skip(q + 5)[i - q - 5]);
            }
        }
        r.push(c);
        assert(r@ =~= want.take(i + 1));
        i = i + 1;
    }
    assert(want.take(i as int) =~= want);
    r
}

fn toggle_chars(line: &Vec<char>) -> (r: Vec<char>)
    ensures
        r@ == toggled(line@),
{
    let (a, b) = trim_bounds(line);
    if chars_unchecked(line) {
        proof {
            lemma_has_box(trim(line@), open_box());
        }
        with_box_at(line, a, &done_box_exec())
    } else if chars_checked(line) {
        proof {
            lemma_has_box(trim(line@), done_box());
            lemma_has_box(trim(line@), done_box_upper());
        }
        with_box_at(line, a, &open_box_exec())
    } else {
        slice_of(line, 0, line.len())
    }
}

/// The line with its checkbox flipped (see `toggled`).
pub fn toggle_todo(line: &str) -> (r: String)
    ensures
        r@ == toggled(line@),
{
    let v = chars_of(line);
    let t = toggle_chars(&v);
    string_of(&t)
}

/// Checked and total task lines among `ls`.
fn count_boxes(ls: &Vec<Vec<char>>) -> (r: (usize, usize))
    ensures
        r.0 == count_checked(seq_views(ls@)),
        r.1 == count_todo(seq_views(ls@)),
{
    let mut done: usize = 0;
    let mut total: usize = 0;
    let mut i: usize = 0;
    assert(seq_views(ls@).take(0) =~= Seq::<Seq<char>>::empty());
    while i < ls.len()
        invariant
            i <= ls@.len(),
            done <= i,
            total <= i,
            done == count_checked(seq_views(ls@).take(i as int)),
            total == count_todo(seq_views(ls@).take(i as int)),
        decreases ls@.len() - i,
    {
        let c = chars_checked(&ls[i]);
        let u = chars_unchecked(&ls[i]);
        proof {
            let t = seq_views(ls@).take(i + 1);
            assert(t.drop_last() =~= seq_views(ls@).take(i as int));
            assert(t.last() == ls@[i as int]@);
        }
        if c {
            done = done + 1;
        }
        if c || u {
            total = total + 1;
        }
        i = i + 1;
    }
    assert(seq_views(ls@).take(i as int) =~= seq_views(ls@));
    (done, total)
}

/// `Some((checked, total))` counted over the lines of `body`, or `None`
/// when no line is a task line.
pub fn todo_progress(body: &str) -> (r: Option<(usize, usize)>)
    ensures
        match r {
            None => progress_of(body@) is None,
            Some((done, total)) => progress_of(body@) == Some((done as nat, total as nat)),
        },
{
    let v = chars_of(body);
    let ls = lines_exec(&v);
    let (done, total) = count_boxes(&ls);
    if total == 0 {
        return None;
    }
    Some((done, total))
}

// ---------------------------------------------------------------------------
// Laws of the checkbox toggle
// ---------------------------------------------------------------------------

/// A five-character checkbox `- [?]`.
pub open spec fn is_box(m: Seq<char>) -> bool {
    &&& m.len() == 5
    &&& m[0] == '-'
    &&& m[1] == ' '
    &&& m[2] == '['
    &&& m[4] == ']'
    &&& (m[3] == ' ' || m[3] == 'x' || m[3] == 'X')
}

/// `l` with the five characters at `q` replaced by `m`.
pub open spec fn replaced(l: Seq<char>, q: int, m: Seq<char>) -> Seq<char> {
    l.take(q) + m + l.skip(q + 5)
}

proof fn lemma_boxes()
    ensures
        is_box(open_box()),
        is_box(done_box()),
        is_box(done_box_upper()),
{
}

/// Whether a text has a box is decided by its first six characters.
proof fn lemma_has_box(t: Seq<char>, m: Seq<char>)
    requires
        m.len() == 5,
    ensures
        has_box(t, m) == (t.len() >= 5 && t.take(5) == m && (t.len() == 5 || t[5] == ' ')),
{
    if t.len() >= 5 && t.take(5) == m {
        if t.len() == 5 {
            assert(t =~= m);
            assert(!starts_with(t, m.push(' ')));
        } else if t[5] == ' ' {
            assert(t.take(6) =~= m.push(' '));
        } else {
            assert(t.take(6)[5] != m.push(' ')[5]);
        }
    } else {
        if starts_with(t, m.push(' ')) {
            assert(t.take(5) =~= m.push(' ').take(5));
            assert(m.push(' ').take(5) =~= m);
        }
        if t == m {
            assert(t.take(5) =~= m);
        }
    }
}

/// A box inside the trimmed segment lies wholly in it.
proof fn lemma_box_position(l: Seq<char>, a: int, b: int, q: int, m: Seq<char>)
    requires
        trim_bounds_at(l, a, b),
        occurs_at(l, m, q),
        is_box(m),
    ensures
        a <= q,
        q + 5 <= b,
{
    assert(l[q] == l.subrange(q, q + 5)[0]);
    assert(l[q + 4] == l.subrange(q, q + 5)[4]);
    if q < a {
        assert(is_white_space(l[q]));
    }
    if q + 5 > b {
        assert(is_white_space(l[q + 4]));
    }
}

/// Replacing a box by a box keeps the trim bounds.
proof fn lemma_replaced_bounds(l: Seq<char>, a: int, b: int, q: int, m: Seq<char>, m2: Seq<char>)
    requires
        trim_bounds_at(l, a, b),
        occurs_at(l, m, q),
        is_box(m),
        is_box(m2),
    ensures
        a <= q,
        q + 5 <= b,
        replaced(l, q, m2).len() == l.len(),
        forall|i: int|
            0 <= i < l.len() && (i < q || q + 5 <= i) ==> #[trigger] replaced(l, q, m2)[i] == l[i],
        forall|i: int| q <= i < q + 5 ==> #[trigger] replaced(l, q, m2)[i] == m2[i - q],
        trim_bounds_at(replaced(l, q, m2), a, b),
        trim(replaced(l, q, m2)) == replaced(l, q, m2).subrange(a, b),
{
    lemma_box_position(l, a, b, q, m);
    let l2 = replaced(l, q, m2);
    assert(l2.len() == l.len());
    assert forall|i: int| 0 <= i < l.len() && (i < q || q + 5 <= i) implies #[trigger] l2[i] == l[i] by {
        if i < q {
            assert(l2[i] == l.take(q)[i]);
        } else {
            assert(l2[i] == l.skip(q + 5)[i - q - 5]);
        }
    }
    assert forall|i: int| q <= i < q + 5 implies #[trigger] l2[i] == m2[i - q] by {}
    assert forall|i: int| 0 <= i < a implies is_white_space(#[trigger] l2[i]) by {
        assert(l2[i] == l[i]);
    }
    assert forall|i: int| b <= i < l2.len() implies is_white_space(#[trigger] l2[i]) by {
        assert(l2[i] == l[i]);
    }
    if a < b {
        if a == q {
            assert(l2[a] == m2[0]);
        } else {
            assert(l2[a] == l[a]);
        }
        if b - 1 == q + 4 {
            assert(l2[b - 1] == m2[4]);
        } else {
            assert(l2[b - 1] == l[b - 1]);
        }
    }
    lemma_trim_is(l2, a, b);
}

/// The leading box of a task line: where it starts, and that the trimmed
/// text is that box alone or followed by a space.
proof fn lemma_leading_box(l: Seq<char>, m: Seq<char>) -> (r: (int, int))
    requires
        is_box(m),
        has_box(trim(l), m),
    ensures
        trim_bounds_at(l, r.0, r.1),
        r.0 == leading_ws(l),
        trim(l) == l.subrange(r.0, r.1),
        r.0 + 5 <= r.1,
        occurs_at(l, m, r.0),
        r.1 == r.0 + 5 || l[r.0 + 5] == ' ',
{
    let (a, b) = lemma_trim_bounds(l);
    let t = trim(l);
    lemma_has_box(t, m);
    assert(l.subrange(a, a + 5) =~= t.take(5));
    if b > a + 5 {
        assert(t[5] == l[a + 5]);
    }
    (a, b)
}

/// Replacing the leading box keeps where the trimmed text starts.
proof fn lemma_leading_ws_kept(l: Seq<char>, a: int, b: int, m: Seq<char>, m2: Seq<char>)
    requires
        trim_bounds_at(l, a, b),
        a + 5 <= b,
        occurs_at(l, m, a),
        is_box(m),
        is_box(m2),
    ensures
        trim_bounds_at(replaced(l, a, m2), a, b),
        leading_ws(replaced(l, a, m2)) == a,
{
    lemma_replaced_bounds(l, a, b, a, m, m2);
    lemma_leading_ws_is(replaced(l, a, m2), a);
}

/// Flipping an unchecked line checks it.
pub proof fn lemma_toggle_checks(l: Seq<char>)
    requires
        line_is_unchecked(l),
    ensures
        line_is_checked(toggled(l)),
        !line_is_unchecked(toggled(l)),
{
    lemma_boxes();
    let (a, b) = lemma_leading_box(l, open_box());
    let l2 = toggled(l);
    assert(l2 == replaced(l, a, done_box()));
    lemma_replaced_bounds(l, a, b, a, open_box(), done_box());
    let t2 = trim(l2);
    assert(t2 == l2.subrange(a, b));
    assert(t2.take(5) =~= done_box());
    if b > a + 5 {
        assert(t2[5] == l2[a + 5]);
    }
    lemma_has_box(t2, done_box());
    lemma_has_box(t2, open_box());
    assert(t2.take(5)[3] != open_box()[3]);
}

/// A line whose trimmed text starts with `- [ ]`, alone or followed by a
/// space, is unchecked and not checked.
proof fn lemma_unchecked_result(l2: Seq<char>, a: int, b: int)
    requires
        trim_bounds_at(l2, a, b),
        a + 5 <= b,
        l2.subrange(a, a + 5) == open_box(),
        b == a + 5 || l2[a + 5] == ' ',
    ensures
        line_is_unchecked(l2),
        !line_is_checked(l2),
{
    lemma_trim_is(l2, a, b);
    let t2 = trim(l2);
    assert(t2.take(5) =~= open_box());
    if b > a + 5 {
        assert(t2[5] == l2[a + 5]);
    }
    lemma_has_box(t2, open_box());
    lemma_has_box(t2, done_box());
    lemma_has_box(t2, done_box_upper());
    assert(t2.take(5)[3] == ' ');
}

/// The leading box of a checked line: `- [x]` or `- [X]`.
proof fn lemma_checked_box(l: Seq<char>) -> (m: Seq<char>)
    requires
        line_is_checked(l),
    ensures
        m == done_box() || m == done_box_upper(),
        is_box(m),
        has_box(trim(l), m),
{
    lemma_boxes();
    if has_box(trim(l), done_box()) {
        done_box()
    } else {
        done_box_upper()
    }
}

/// Flipping a checked line unchecks it.
pub proof fn lemma_toggle_unchecks(l: Seq<char>)
    requires
        line_is_checked(l),
        !line_is_unchecked(l),
    ensures
        line_is_unchecked(toggled(l)),
        !line_is_checked(toggled(l)),
{
    lemma_boxes();
    let m = lemma_checked_box(l);
    let (a, b) = lemma_leading_box(l, m);
    lemma_replaced_bounds(l, a, b, a, m, open_box());
    let l2 = replaced(l, a, open_box());
    assert(l2 == toggled(l));
    assert(l2.subrange(a, a + 5) =~= open_box());
    if b > a + 5 {
        assert(l2[a + 5] == l[a + 5]);
    }
    lemma_unchecked_result(l2, a, b);
}

/// A line is never both checked and unchecked.
pub proof fn lemma_checked_xor_unchecked(l: Seq<char>)
    ensures
        !(line_is_checked(l) && line_is_unchecked(l)),
{
    let t = trim(l);
    lemma_has_box(t, done_box());
    lemma_has_box(t, done_box_upper());
    lemma_has_box(t, open_box());
    if line_is_unchecked(l) {
        assert(t.take(5)[3] == ' ');
    }
}

/// Flipping a task line turns an unchecked one into a checked one and a
/// checked one into an unchecked one; any other line stays as it is.
pub proof fn lemma_toggle_flips(l: Seq<char>)
    ensures
        line_is_unchecked(l) ==> line_is_checked(toggled(l)) && !line_is_unchecked(toggled(l)),
        line_is_checked(l) ==> line_is_unchecked(toggled(l)) && !line_is_checked(toggled(l)),
        !line_is_todo(l) ==> toggled(l) == l,
{
    lemma_checked_xor_unchecked(l);
    if line_is_unchecked(l) {
        lemma_toggle_checks(l);
    }
    if line_is_checked(l) {
        lemma_toggle_unchecks(l);
    }
}

/// Flipping a line twice gives it back; only a leading `- [X]` comes back
/// in the lower-case form `- [x]`.
pub proof fn lemma_toggle_twice(l: Seq<char>)
    ensures
        !has_box(trim(l), done_box_upper()) ==> toggled(toggled(l)) == l,
        has_box(trim(l), done_box_upper()) ==> toggled(toggled(l)) == replaced(
            l,
            leading_ws(l) as int,
            done_box(),
        ),
{
    lemma_boxes();
    lemma_checked_xor_unchecked(l);
    if line_is_unchecked(l) {
        let (a, b) = lemma_leading_box(l, open_box());
        lemma_toggle_checks(l);
        let l1 = replaced(l, a, done_box());
        lemma_leading_ws_kept(l, a, b, open_box(), done_box());
        lemma_checked_xor_unchecked(l1);
        assert(toggled(l1) == replaced(l1, a, open_box()));
        assert(replaced(l1, a, open_box()) =~= l);
        let t = trim(l);
        lemma_has_box(t, open_box());
        lemma_has_box(t, done_box_upper());
        assert(t.take(5)[3] != done_box_upper()[3]);
    } else if line_is_checked(l) {
        let m = lemma_checked_box(l);
        let (a, b) = lemma_leading_box(l, m);
        lemma_toggle_unchecks(l);
        let l1 = replaced(l, a, open_box());
        lemma_leading_ws_kept(l, a, b, m, open_box());
        assert(toggled(l1) == replaced(l1, a, done_box()));
        let t = trim(l);
        lemma_has_box(t, done_box());
        lemma_has_box(t, done_box_upper());
        if m == done_box() {
            assert(l.subrange(a, a + 5) == done_box());
            assert(replaced(l1, a, done_box()) =~= l);
            assert(t.take(5)[3] != done_box_upper()[3]);
        } else {
            assert(replaced(l1, a, done_box()) =~= replaced(l, a, done_box()));
        }
    } else {
        let t = trim(l);
        lemma_has_box(t, done_box_upper());
    }
}

/// Never more checked task lines than task lines.
pub proof fn lemma_count_checked_le(ls: Seq<Seq<char>>)
    ensures
        count_checked(ls) <= count_todo(ls),
    decreases ls.len(),
{
    if ls.len() > 0 {
        lemma_count_checked_le(ls.drop_last());
    }
}

/// A body with progress has at least one task line, and no more checked
/// tasks than tasks.
pub proof fn lemma_progress_bounds(body: Seq<char>)
    ensures
        progress_of(body) matches Some((done, total)) ==> 0 < total && done <= total,
{
    lemma_count_checked_le(lines(body));
}

/// 1 for a task line, else 0.
pub open spec fn todo_mark(l: Seq<char>) -> nat {
    if line_is_todo(l) {
        1
    } else {
        0
    }
}

/// 1 for a checked task line, else 0.
pub open spec fn checked_mark(l: Seq<char>) -> nat {
    if line_is_checked(l) {
        1
    } else {
        0
    }
}

pub proof fn lemma_counts_concat(a: Seq<Seq<char>>, b: Seq<Seq<char>>)
    ensures
        count_todo(a + b) == count_todo(a) + count_todo(b),
        count_checked(a + b) == count_checked(a) + count_checked(b),
    decreases b.len(),
{
    if b.len() == 0 {
        assert(a + b =~= a);
    } else {
        lemma_counts_concat(a, b.drop_last());
        assert((a + b).drop_last() =~= a + b.drop_last());
        assert((a + b).last() == b.last());
    }
}

proof fn lemma_counts_single(x: Seq<char>)
    ensures
        count_todo(seq![x]) == todo_mark(x),
        count_checked(seq![x]) == checked_mark(x),
{
    assert(seq![x].drop_last() =~= Seq::<Seq<char>>::empty());
    assert(seq![x].last() == x);
    assert(count_todo(Seq::<Seq<char>>::empty()) == 0);
    assert(count_checked(Seq::<Seq<char>>::empty()) == 0);
}

/// Replacing one line changes the counts by that line alone.
pub proof fn lemma_counts_update(ls: Seq<Seq<char>>, k: int, y: Seq<char>)
    requires
        0 <= k < ls.len(),
    ensures
        count_todo(ls.update(k, y)) + todo_mark(ls[k]) == count_todo(ls) + todo_mark(y),
        count_checked(ls.update(k, y)) + checked_mark(ls[k]) == count_checked(ls) + checked_mark(y),
        count_todo(ls) >= todo_mark(ls[k]),
        count_checked(ls) >= checked_mark(ls[k]),
{
    let pre = ls.take(k);
    let post = ls.skip(k + 1);
    assert(ls =~= pre + seq![ls[k]] + post);
    assert(ls.update(k, y) =~= pre + seq![y] + post);
    lemma_counts_concat(pre + seq![ls[k]], post);
    lemma_counts_concat(pre, seq![ls[k]]);
    lemma_counts_concat(pre + seq![y], post);
    lemma_counts_concat(pre, seq![y]);
    lemma_counts_single(ls[k]);
    lemma_counts_single(y);
}

/// Whether a line is a (checked) task depends only on its trimmed text.
proof fn lemma_marks_by_trim(a: Seq<char>, b: Seq<char>)
    requires
        trim(a) == trim(b),
    ensures
        todo_mark(a) == todo_mark(b),
        checked_mark(a) == checked_mark(b),
{
}

/// Joining lines and cutting the text into lines again keeps the task
/// counts: only a final empty line or a carriage return before a line feed
/// can get lost, and neither is a task.
pub proof fn lemma_counts_lines_join(ls: Seq<Seq<char>>)
    requires
        forall|i: int, k: int|
            0 <= i < ls.len() && 0 <= k < ls[i].len() ==> #[trigger] ls[i][k] != '\n',
    ensures
        count_todo(lines(join_lines(ls))) == count_todo(ls),
        count_checked(lines(join_lines(ls))) == count_checked(ls),
    decreases ls.len(),
{
    if ls.len() == 0 {
        assert(lines(join_lines(ls)) =~= Seq::<Seq<char>>::empty());
    } else if ls.len() == 1 {
        let x = ls[0];
        assert(join_lines(ls) == x);
        assert(ls =~= seq![x]);
        lemma_counts_single(x);
        if x.len() == 0 {
            assert(lines(x) =~= Seq::<Seq<char>>::empty());
            lemma_trim_noop(x);
            lemma_has_box(trim(x), open_box());
            lemma_has_box(trim(x), done_box());
            lemma_has_box(trim(x), done_box_upper());
        } else {
            assert forall|k: int| 0 <= k < x.len() implies #[trigger] x[k] != '\n' by {
                assert(ls[0][k] != '\n');
            }
            lemma_lines_single(x);
        }
    } else {
        let x = ls[0];
        let rest = ls.drop_first();
        assert forall|i: int, k: int|
            0 <= i < rest.len() && 0 <= k < rest[i].len() implies #[trigger] rest[i][k] != '\n' by {
            assert(rest[i] == ls[i + 1]);
        }
        lemma_counts_lines_join(rest);
        assert(ls =~= seq![x] + rest);
        lemma_join_lines_cons(x, rest);
        let r = join_lines(rest);
        let t = x + seq!['\n'] + r;
        assert forall|k: int| 0 <= k < x.len() implies #[trigger] t[k] != '\n' by {
            assert(t[k] == x[k]);
            assert(ls[0][k] != '\n');
        }
        assert(t[x.len() as int] == '\n');
        lemma_lines_cut(t, x.len() as int);
        assert(t.take(x.len() as int) =~= x);
        assert(t.skip(x.len() as int + 1) =~= r);
        lemma_trim_strip_cr(x);
        lemma_marks_by_trim(strip_cr(x), x);
        lemma_counts_concat(seq![strip_cr(x)], lines(r));
        lemma_counts_concat(seq![x], rest);
        lemma_counts_single(strip_cr(x));
        lemma_counts_single(x);
    }
}

/// A flipped line holds no line feed when the line holds none.
pub proof fn lemma_toggled_no_newline(l: Seq<char>)
    requires
        forall|k: int| 0 <= k < l.len() ==> #[trigger] l[k] != '\n',
    ensures
        forall|k: int| 0 <= k < toggled(l).len() ==> #[trigger] toggled(l)[k] != '\n',
{
    lemma_boxes();
    lemma_checked_xor_unchecked(l);
    if line_is_unchecked(l) {
        let (a, b) = lemma_leading_box(l, open_box());
        lemma_replaced_bounds(l, a, b, a, open_box(), done_box());
    } else if line_is_checked(l) {
        let m = lemma_checked_box(l);
        let (a, b) = lemma_leading_box(l, m);
        lemma_replaced_bounds(l, a, b, a, m, open_box());
    }
}

} // verus!
