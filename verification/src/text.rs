//! Character-level text operations: the meaning of each is a spec function
//! over `Seq<char>`, and each executable helper works on a `Vec<char>`.
use vstd::prelude::*;

verus! {

// ---------------------------------------------------------------------------
// Whitespace and trimming
// ---------------------------------------------------------------------------

/// The Unicode `White_Space` property.
pub open spec fn is_white_space(c: char) -> bool {
    ||| ('\u{9}' <= c && c <= '\u{d}')
    ||| c == ' '
    ||| c == '\u{85}'
    ||| c == '\u{a0}'
    ||| c == '\u{1680}'
    ||| ('\u{2000}' <= c && c <= '\u{200a}')
    ||| c == '\u{2028}'
    ||| c == '\u{2029}'
    ||| c == '\u{202f}'
    ||| c == '\u{205f}'
    ||| c == '\u{3000}'
}

/// Whether `c` is whitespace, as `char::is_whitespace` decides it: the
/// characters that carry the Unicode `White_Space` property.
fn char_is_whitespace(c: char) -> (b: bool)
    ensures
        b == is_white_space(c),
{
    ('\u{9}' <= c && c <= '\u{d}') || c == ' ' || c == '\u{85}' || c == '\u{a0}' || c
        == '\u{1680}' || ('\u{2000}' <= c && c <= '\u{200a}') || c == '\u{2028}' || c
        == '\u{2029}' || c == '\u{202f}' || c == '\u{205f}' || c == '\u{3000}'
}

/// Number of whitespace characters at the start of `s`.
pub open spec fn leading_ws(s: Seq<char>) -> nat
    decreases s.len(),
{
    if s.len() > 0 && is_white_space(s[0]) {
        1 + leading_ws(s.drop_first())
    } else {
        0
    }
}

/// Number of whitespace characters at the end of `s`.
pub open spec fn trailing_ws(s: Seq<char>) -> nat
    decreases s.len(),
{
    if s.len() > 0 && is_white_space(s.last()) {
        1 + trailing_ws(s.drop_last())
    } else {
        0
    }
}

/// `s` without its leading whitespace (`str::trim_start`).
pub open spec fn trim_start(s: Seq<char>) -> Seq<char> {
    s.skip(leading_ws(s) as int)
}

/// `s` without its trailing whitespace (`str::trim_end`).
pub open spec fn trim_end(s: Seq<char>) -> Seq<char> {
    s.take(s.len() - trailing_ws(s))
}

/// `s` without whitespace at either end (`str::trim`).
pub open spec fn trim(s: Seq<char>) -> Seq<char> {
    trim_end(trim_start(s))
}

pub proof fn lemma_leading_ws_bound(s: Seq<char>)
    ensures
        leading_ws(s) <= s.len(),
    decreases s.len(),
{
    if s.len() > 0 && is_white_space(s[0]) {
        lemma_leading_ws_bound(s.drop_first());
    }
}

pub proof fn lemma_trailing_ws_bound(s: Seq<char>)
    ensures
        trailing_ws(s) <= s.len(),
    decreases s.len(),
{
    if s.len() > 0 && is_white_space(s.last()) {
        lemma_trailing_ws_bound(s.drop_last());
    }
}

/// `a` is the index of the first non-whitespace character of `s`, or its
/// length.
pub proof fn lemma_leading_ws_is(s: Seq<char>, a: int)
    requires
        0 <= a <= s.len(),
        forall|i: int| 0 <= i < a ==> is_white_space(#[trigger] s[i]),
        a == s.len() || !is_white_space(s[a]),
    ensures
        leading_ws(s) == a,
    decreases a,
{
    if a > 0 {
        let t = s.drop_first();
        assert forall|i: int| 0 <= i < a - 1 implies is_white_space(#[trigger] t[i]) by {
            assert(t[i] == s[i + 1]);
        }
        lemma_leading_ws_is(t, a - 1);
    }
}

/// `s.len() - b` is the number of trailing whitespace characters of `s`.
pub proof fn lemma_trailing_ws_is(s: Seq<char>, b: int)
    requires
        0 <= b <= s.len(),
        forall|i: int| b <= i < s.len() ==> is_white_space(#[trigger] s[i]),
        b == 0 || !is_white_space(s[b - 1]),
    ensures
        trailing_ws(s) == s.len() - b,
    decreases s.len() - b,
{
    if b < s.len() {
        let t = s.drop_last();
        assert forall|i: int| b <= i < t.len() implies is_white_space(#[trigger] t[i]) by {
            assert(t[i] == s[i]);
        }
        lemma_trailing_ws_is(t, b);
    }
}

/// The trimmed text is the segment between the first and last
/// non-whitespace characters.
pub proof fn lemma_trim_is(s: Seq<char>, a: int, b: int)
    requires
        0 <= a <= b <= s.len(),
        forall|i: int| 0 <= i < a ==> is_white_space(#[trigger] s[i]),
        forall|i: int| b <= i < s.len() ==> is_white_space(#[trigger] s[i]),
        a == b || (!is_white_space(s[a]) && !is_white_space(s[b - 1])),
    ensures
        trim(s) == s.subrange(a, b),
{
    if a == b {
        assert forall|i: int| 0 <= i < s.len() implies is_white_space(#[trigger] s[i]) by {
            if i >= a {
                assert(b <= i);
            }
        }
        lemma_leading_ws_is(s, s.len() as int);
        assert(trim_start(s) =~= Seq::<char>::empty());
        assert(trim(s) =~= s.subrange(a, b));
    } else {
        lemma_leading_ws_is(s, a);
        let t = s.skip(a);
        assert forall|i: int| b - a <= i < t.len() implies is_white_space(#[trigger] t[i]) by {
            assert(t[i] == s[a + i]);
        }
        assert(t[b - a - 1] == s[b - 1]);
        lemma_trailing_ws_is(t, b - a);
        assert(trim(s) =~= s.subrange(a, b));
    }
}

/// A trimmed text neither starts nor ends with whitespace.
pub proof fn lemma_trim_ends(s: Seq<char>)
    ensures
        trim(s).len() > 0 ==> !is_white_space(trim(s)[0]) && !is_white_space(trim(s).last()),
        trim(s).len() <= s.len(),
{
    lemma_leading_ws_bound(s);
    let t = trim_start(s);
    lemma_trailing_ws_bound(t);
    if trim(s).len() > 0 {
        let a = leading_ws(s) as int;
        assert(a < s.len());
        lemma_leading_ws_first(s);
        assert(t[0] == s[a]);
        lemma_trailing_ws_last(t);
        assert(trim(s)[0] == t[0]);
        assert(trim(s).last() == t[t.len() - trailing_ws(t) - 1]);
    }
}

proof fn lemma_leading_ws_first(s: Seq<char>)
    ensures
        leading_ws(s) < s.len() ==> !is_white_space(s[leading_ws(s) as int]),
    decreases s.len(),
{
    if s.len() > 0 && is_white_space(s[0]) {
        lemma_leading_ws_first(s.drop_first());
        let t = s.drop_first();
        if leading_ws(t) < t.len() {
            assert(t[leading_ws(t) as int] == s[leading_ws(s) as int]);
        }
    }
}

proof fn lemma_trailing_ws_last(s: Seq<char>)
    ensures
        trailing_ws(s) < s.len() ==> !is_white_space(s[s.len() - trailing_ws(s) - 1]),
    decreases s.len(),
{
    if s.len() > 0 && is_white_space(s.last()) {
        lemma_trailing_ws_last(s.drop_last());
        let t = s.drop_last();
        if trailing_ws(t) < t.len() {
            assert(t[t.len() - trailing_ws(t) - 1] == s[s.len() - trailing_ws(s) - 1]);
        }
    }
}

/// Trimming a text that has no whitespace at either end changes nothing.
pub proof fn lemma_trim_noop(s: Seq<char>)
    requires
        s.len() == 0 || (!is_white_space(s[0]) && !is_white_space(s.last())),
    ensures
        trim(s) == s,
{
    lemma_trim_is(s, 0, s.len() as int);
    assert(s.subrange(0, s.len() as int) =~= s);
}

/// `a..b` bounds the trimmed segment of `s`: only whitespace lies outside
/// it, and it neither starts nor ends with whitespace.
pub open spec fn trim_bounds_at(s: Seq<char>, a: int, b: int) -> bool {
    &&& 0 <= a <= b <= s.len()
    &&& forall|i: int| 0 <= i < a ==> is_white_space(#[trigger] s[i])
    &&& forall|i: int| b <= i < s.len() ==> is_white_space(#[trigger] s[i])
    &&& a < b ==> !is_white_space(s[a]) && !is_white_space(s[b - 1])
}

proof fn lemma_leading_ws_all(s: Seq<char>)
    ensures
        forall|i: int| 0 <= i < leading_ws(s) ==> is_white_space(#[trigger] s[i]),
    decreases s.len(),
{
    lemma_leading_ws_bound(s);
    if s.len() > 0 && is_white_space(s[0]) {
        let t = s.drop_first();
        lemma_leading_ws_all(t);
        lemma_leading_ws_bound(t);
        assert forall|i: int| 0 <= i < leading_ws(s) implies is_white_space(#[trigger] s[i]) by {
            if i > 0 {
                assert(s[i] == t[i - 1]);
            }
        }
    }
}

proof fn lemma_trailing_ws_all(s: Seq<char>)
    ensures
        forall|i: int| s.len() - trailing_ws(s) <= i < s.len() ==> is_white_space(#[trigger] s[i]),
    decreases s.len(),
{
    lemma_trailing_ws_bound(s);
    if s.len() > 0 && is_white_space(s.last()) {
        let t = s.drop_last();
        lemma_trailing_ws_all(t);
        lemma_trailing_ws_bound(t);
        assert forall|i: int| s.len() - trailing_ws(s) <= i < s.len() implies is_white_space(
            #[trigger] s[i],
        ) by {
            if i < s.len() - 1 {
                assert(s[i] == t[i]);
            }
        }
    }
}

/// Every text has trim bounds, and its trimmed text is the segment between
/// them.
pub proof fn lemma_trim_bounds(s: Seq<char>) -> (r: (int, int))
    ensures
        trim_bounds_at(s, r.0, r.1),
        r.0 == leading_ws(s),
        trim(s) == s.subrange(r.0, r.1),
{
    lemma_leading_ws_bound(s);
    lemma_leading_ws_all(s);
    lemma_leading_ws_first(s);
    let a = leading_ws(s) as int;
    let t = s.skip(a);
    lemma_trailing_ws_bound(t);
    lemma_trailing_ws_all(t);
    lemma_trailing_ws_last(t);
    let b = s.len() - trailing_ws(t);
    assert forall|i: int| b <= i < s.len() implies is_white_space(#[trigger] s[i]) by {
        assert(s[i] == t[i - a]);
    }
    if a < b {
        assert(s[b - 1] == t[t.len() - trailing_ws(t) - 1]);
    }
    assert(trim(s) =~= s.subrange(a, b));
    (a, b)
}

/// Bounds `(a, b)` of the trimmed segment of `s`.
pub fn trim_bounds(s: &Vec<char>) -> (r: (usize, usize))
    ensures
        r.0 <= r.1 <= s@.len(),
        r.0 == leading_ws(s@),
        trim(s@) == s@.subrange(r.0 as int, r.1 as int),
{
    let n = s.len();
    let mut a: usize = 0;
    while a < n && char_is_whitespace(s[a])
        invariant
            a <= n == s@.len(),
            forall|i: int| 0 <= i < a ==> is_white_space(#[trigger] s@[i]),
        decreases n - a,
    {
        a = a + 1;
    }
    proof {
        lemma_leading_ws_is(s@, a as int);
    }
    let mut b: usize = n;
    while b > a && char_is_whitespace(s[b - 1])
        invariant
            a <= b <= n == s@.len(),
            a == leading_ws(s@),
            a < n ==> !is_white_space(s@[a as int]),
            forall|i: int| 0 <= i < a ==> is_white_space(#[trigger] s@[i]),
            forall|i: int| b <= i < n ==> is_white_space(#[trigger] s@[i]),
        decreases b,
    {
        b = b - 1;
    }
    proof {
        lemma_trim_is(s@, a as int, b as int);
    }
    (a, b)
}

/// The characters `s[a..b]`.
pub fn slice_of(s: &Vec<char>, a: usize, b: usize) -> (r: Vec<char>)
    requires
        a <= b <= s@.len(),
    ensures
        r@ == s@.subrange(a as int, b as int),
{
    let mut r: Vec<char> = Vec::new();
    let mut i = a;
    while i < b
        invariant
            a <= i <= b <= s@.len(),
            r@ == s@.subrange(a as int, i as int),
        decreases b - i,
    {
        r.push(s[i]);
        i = i + 1;
        assert(r@ =~= s@.subrange(a as int, i as int));
    }
    r
}

/// `str::trim` on a character vector.
pub fn trim_chars(s: &Vec<char>) -> (r: Vec<char>)
    ensures
        r@ == trim(s@),
{
    let (a, b) = trim_bounds(s);
    slice_of(s, a, b)
}

// ---------------------------------------------------------------------------
// Prefixes, suffixes and occurrences
// ---------------------------------------------------------------------------

pub open spec fn starts_with(s: Seq<char>, p: Seq<char>) -> bool {
    p.len() <= s.len() && s.take(p.len() as int) == p
}

/// `p` occurs in `s` starting at index `i`.
pub open spec fn occurs_at(s: Seq<char>, p: Seq<char>, i: int) -> bool {
    0 <= i && i + p.len() <= s.len() && s.subrange(i, i + p.len()) == p
}

/// `i` is the leftmost occurrence of `p` in `s`.
pub open spec fn is_first_occurrence(s: Seq<char>, p: Seq<char>, i: int) -> bool {
    occurs_at(s, p, i) && forall|j: int| 0 <= j < i ==> !occurs_at(s, p, j)
}

pub open spec fn contains(s: Seq<char>, p: Seq<char>) -> bool {
    exists|i: int| occurs_at(s, p, i)
}

pub open spec fn first_occurrence(s: Seq<char>, p: Seq<char>) -> int {
    choose|i: int| is_first_occurrence(s, p, i)
}

/// The leftmost occurrence is unique.
pub proof fn lemma_first_occurrence_unique(s: Seq<char>, p: Seq<char>, i: int)
    requires
        is_first_occurrence(s, p, i),
    ensures
        first_occurrence(s, p) == i,
{
    let k = first_occurrence(s, p);
    assert(is_first_occurrence(s, p, k));
    if k < i {
        assert(!occurs_at(s, p, k));
    } else if i < k {
        assert(!occurs_at(s, p, i));
    }
}

/// Whether `p` occurs in `s` at index `i`.
pub fn occurs_at_exec(s: &Vec<char>, p: &Vec<char>, i: usize) -> (r: bool)
    ensures
        r == occurs_at(s@, p@, i as int),
{
    let n = s.len();
    let m = p.len();
    if i > n || m > n - i {
        return false;
    }
    let mut k: usize = 0;
    while k < m
        invariant
            i + m <= n == s@.len(),
            m == p@.len(),
            k <= m,
            forall|j: int| 0 <= j < k ==> s@[i + j] == p@[j],
        decreases m - k,
    {
        if s[i + k] != p[k] {
            assert(s@.subrange(i as int, i + m)[k as int] != p@[k as int]);
            return false;
        }
        k = k + 1;
    }
    assert(s@.subrange(i as int, i + m) =~= p@);
    true
}

/// The leftmost occurrence of `p` in `s` at or after index `from`.
pub fn find_from(s: &Vec<char>, p: &Vec<char>, from: usize) -> (r: Option<usize>)
    requires
        from <= s@.len(),
    ensures
        match r {
            Some(i) => from <= i && occurs_at(s@, p@, i as int) && forall|j: int|
                from <= j < i ==> !occurs_at(s@, p@, j),
            None => forall|j: int| from <= j ==> !occurs_at(s@, p@, j),
        },
{
    let n = s.len();
    let mut i = from;
    while i < n
        invariant
            from <= i <= n,
            n == s@.len(),
            forall|j: int| from <= j < i ==> !occurs_at(s@, p@, j),
        decreases n - i,
    {
        if occurs_at_exec(s, p, i) {
            return Some(i);
        }
        i = i + 1;
    }
    if occurs_at_exec(s, p, n) {
        return Some(n);
    }
    None
}

/// Occurrences in a suffix are occurrences in the whole text, shifted.
pub proof fn lemma_occurs_skip(s: Seq<char>, p: Seq<char>, pos: int, j: int)
    requires
        0 <= pos <= s.len(),
        0 <= j,
    ensures
        occurs_at(s.skip(pos), p, j) == occurs_at(s, p, pos + j),
{
    if j + p.len() <= s.len() - pos {
        assert(s.skip(pos).subrange(j, j + p.len()) =~= s.subrange(pos + j, pos + j + p.len()));
    }
}

pub fn starts_with_exec(s: &Vec<char>, p: &Vec<char>) -> (r: bool)
    ensures
        r == starts_with(s@, p@),
{
    let r = occurs_at_exec(s, p, 0);
    proof {
        if p@.len() <= s@.len() {
            assert(s@.subrange(0, p@.len() as int) =~= s@.take(p@.len() as int));
        }
    }
    r
}

pub fn equals_exec(s: &Vec<char>, p: &Vec<char>) -> (r: bool)
    ensures
        r == (s@ == p@),
{
    if s.len() != p.len() {
        return false;
    }
    let r = starts_with_exec(s, p);
    proof {
        assert(s@.take(p@.len() as int) =~= s@);
    }
    r
}

// ---------------------------------------------------------------------------
// Splitting, lines and joining
// ---------------------------------------------------------------------------

/// The texts held by a vector of character vectors.
pub open spec fn seq_views(v: Seq<Vec<char>>) -> Seq<Seq<char>> {
    v.map_values(|x: Vec<char>| x@)
}

/// `str::split` with a non-empty separator: the pieces between the
/// non-overlapping occurrences of `p`, found from left to right.
pub open spec fn split_on(s: Seq<char>, p: Seq<char>) -> Seq<Seq<char>>
    decreases s.len(),
    when p.len() > 0
{
    if exists|i: int| is_first_occurrence(s, p, i) {
        let i = first_occurrence(s, p);
        seq![s.take(i)] + split_on(s.skip(i + p.len()), p)
    } else {
        seq![s]
    }
}

/// `str::split` on character vectors.
pub fn split_exec(s: &Vec<char>, p: &Vec<char>) -> (r: Vec<Vec<char>>)
    requires
        p@.len() > 0,
    ensures
        seq_views(r@) == split_on(s@, p@),
{
    let n = s.len();
    let mut out: Vec<Vec<char>> = Vec::new();
    let mut pos: usize = 0;
    assert(s@.skip(0) =~= s@);
    loop
        invariant
            pos <= n == s@.len(),
            p@.len() > 0,
            seq_views(out@) + split_on(s@.skip(pos as int), p@) == split_on(s@, p@),
        decreases n - pos,
    {
        let ghost rest = s@.skip(pos as int);
        match find_from(s, p, pos) {
            Some(i) => {
                proof {
                    lemma_occurs_skip(s@, p@, pos as int, i - pos);
                    assert forall|j: int| 0 <= j < i - pos implies !occurs_at(rest, p@, j) by {
                        lemma_occurs_skip(s@, p@, pos as int, j);
                    }
                    assert(is_first_occurrence(rest, p@, i - pos));
                    lemma_first_occurrence_unique(rest, p@, i - pos);
                    assert(rest.take(i - pos) =~= s@.subrange(pos as int, i as int));
                    assert(rest.skip(i - pos + p@.len()) =~= s@.skip(i + p@.len()));
                }
                let piece = slice_of(s, pos, i);
                let ghost before = seq_views(out@);
                out.push(piece);
                proof {
                    assert(seq_views(out@) =~= before.push(piece@));
                    assert(split_on(rest, p@) == seq![piece@] + split_on(
                        s@.skip(i + p@.len()),
                        p@,
                    ));
                    assert(seq_views(out@) + split_on(s@.skip(i + p@.len()), p@) =~= before
                        + split_on(rest, p@));
                }
                pos = i + p.len();
            },
            None => {
                proof {
                    assert forall|j: int| #![auto] is_first_occurrence(rest, p@, j) implies false by {
                        lemma_occurs_skip(s@, p@, pos as int, j);
                    }
                    assert(rest =~= s@.subrange(pos as int, n as int));
                }
                let piece = slice_of(s, pos, n);
                let ghost before = seq_views(out@);
                out.push(piece);
                proof {
                    assert(seq_views(out@) =~= before.push(piece@));
                    assert(seq_views(out@) =~= before + split_on(rest, p@));
                }
                return out;
            },
        }
    }
}

/// Index of the first line feed in `s`, or its length when there is none.
pub open spec fn newline_pos(s: Seq<char>) -> nat
    decreases s.len(),
{
    if s.len() == 0 || s[0] == '\n' {
        0
    } else {
        1 + newline_pos(s.drop_first())
    }
}

/// A line whose terminator was `\r\n` loses its carriage return.
pub open spec fn strip_cr(l: Seq<char>) -> Seq<char> {
    if l.len() > 0 && l.last() == '\r' {
        l.drop_last()
    } else {
        l
    }
}

/// `str::lines`: the text cut at each `\n` (or `\r\n`), with no empty line
/// after a final line feed, and no line at all for the empty text.
pub open spec fn lines(s: Seq<char>) -> Seq<Seq<char>>
    decreases s.len(),
{
    if s.len() == 0 {
        seq![]
    } else {
        let i = newline_pos(s);
        if i < s.len() {
            seq![strip_cr(s.take(i as int))] + lines(s.skip(i as int + 1))
        } else {
            seq![s]
        }
    }
}

pub proof fn lemma_newline_pos_is(s: Seq<char>, i: int)
    requires
        0 <= i <= s.len(),
        forall|k: int| 0 <= k < i ==> #[trigger] s[k] != '\n',
        i == s.len() || s[i] == '\n',
    ensures
        newline_pos(s) == i,
    decreases i,
{
    if i > 0 {
        let t = s.drop_first();
        assert forall|k: int| 0 <= k < i - 1 implies #[trigger] t[k] != '\n' by {
            assert(t[k] == s[k + 1]);
        }
        lemma_newline_pos_is(t, i - 1);
    }
}

/// `str::lines` on character vectors.
pub fn lines_exec(s: &Vec<char>) -> (r: Vec<Vec<char>>)
    ensures
        seq_views(r@) == lines(s@),
{
    let n = s.len();
    let mut out: Vec<Vec<char>> = Vec::new();
    let mut pos: usize = 0;
    assert(s@.skip(0) =~= s@);
    loop
        invariant
            pos <= n == s@.len(),
            seq_views(out@) + lines(s@.skip(pos as int)) == lines(s@),
        decreases n - pos,
    {
        let ghost rest = s@.skip(pos as int);
        if pos == n {
            assert(rest.len() == 0);
            assert(seq_views(out@) + lines(rest) =~= seq_views(out@));
            return out;
        }
        let mut j = pos;
        while j < n && s[j] != '\n'
            invariant
                pos <= j <= n == s@.len(),
                forall|k: int| pos <= k < j ==> #[trigger] s@[k] != '\n',
            decreases n - j,
        {
            j = j + 1;
        }
        proof {
            assert forall|k: int| 0 <= k < j - pos implies #[trigger] rest[k] != '\n' by {
                assert(rest[k] == s@[pos + k]);
            }
            lemma_newline_pos_is(rest, j - pos);
        }
        let ghost before = seq_views(out@);
        if j < n {
            let end = if j > pos && s[j - 1] == '\r' {
                j - 1
            } else {
                j
            };
            let line = slice_of(s, pos, end);
            proof {
                assert(rest.take(j - pos) =~= s@.subrange(pos as int, j as int));
                assert(strip_cr(rest.take(j - pos)) =~= line@);
                assert(rest.skip(j - pos + 1) =~= s@.skip(j + 1));
            }
            out.push(line);
            proof {
                assert(seq_views(out@) =~= before.push(line@));
                assert(seq_views(out@) + lines(s@.skip(j + 1)) =~= before + lines(rest));
            }
            pos = j + 1;
        } else {
            let line = slice_of(s, pos, n);
            proof {
                assert(rest =~= line@);
            }
            out.push(line);
            proof {
                assert(seq_views(out@) =~= before.push(line@));
                assert(seq_views(out@) =~= before + lines(rest));
            }
            return out;
        }
    }
}

/// `join("\n")`: the lines with a line feed between each two.
pub open spec fn join_lines(ls: Seq<Seq<char>>) -> Seq<char>
    decreases ls.len(),
{
    if ls.len() == 0 {
        seq![]
    } else if ls.len() == 1 {
        ls[0]
    } else {
        join_lines(ls.drop_last()) + seq!['\n'] + ls.last()
    }
}

pub fn join_lines_exec(ls: &Vec<Vec<char>>) -> (r: Vec<char>)
    ensures
        r@ == join_lines(seq_views(ls@)),
{
    let mut out: Vec<char> = Vec::new();
    let mut i: usize = 0;
    assert(seq_views(ls@).take(0) =~= Seq::<Seq<char>>::empty());
    while i < ls.len()
        invariant
            i <= ls@.len(),
            out@ == join_lines(seq_views(ls@).take(i as int)),
        decreases ls@.len() - i,
    {
        if i > 0 {
            out.push('\n');
        }
        let line = &ls[i];
        let ghost mid = out@;
        let mut k: usize = 0;
        while k < line.len()
            invariant
                k <= line@.len(),
                out@ == mid + line@.take(k as int),
            decreases line@.len() - k,
        {
            out.push(line[k]);
            k = k + 1;
            assert(out@ =~= mid + line@.take(k as int));
        }
        proof {
            let t = seq_views(ls@).take(i + 1);
            assert(t.drop_last() =~= seq_views(ls@).take(i as int));
            assert(t.last() == line@);
            assert(line@.take(k as int) =~= line@);
            if i == 0 {
                assert(out@ =~= join_lines(t));
            } else {
                assert(out@ =~= join_lines(t));
            }
        }
        i = i + 1;
    }
    assert(seq_views(ls@).take(i as int) =~= seq_views(ls@));
    out
}

/// `lines` cuts at the first line feed.
pub proof fn lemma_lines_cut(s: Seq<char>, i: int)
    requires
        0 <= i < s.len(),
        s[i] == '\n',
        forall|k: int| 0 <= k < i ==> #[trigger] s[k] != '\n',
    ensures
        lines(s) == seq![strip_cr(s.take(i))] + lines(s.skip(i + 1)),
{
    lemma_newline_pos_is(s, i);
}

/// A non-empty text without a line feed is a single line.
pub proof fn lemma_lines_single(s: Seq<char>)
    requires
        s.len() > 0,
        forall|k: int| 0 <= k < s.len() ==> #[trigger] s[k] != '\n',
    ensures
        lines(s) == seq![s],
{
    lemma_newline_pos_is(s, s.len() as int);
}

pub proof fn lemma_join_lines_cons(x: Seq<char>, ls: Seq<Seq<char>>)
    requires
        ls.len() > 0,
    ensures
        join_lines(seq![x] + ls) == x + seq!['\n'] + join_lines(ls),
    decreases ls.len(),
{
    let all = seq![x] + ls;
    if ls.len() == 1 {
        assert(all.drop_last() =~= seq![x]);
        assert(join_lines(ls) == ls[0]);
        assert(join_lines(all.drop_last()) == x);
    } else {
        lemma_join_lines_cons(x, ls.drop_last());
        assert(all.drop_last() =~= seq![x] + ls.drop_last());
        assert(all.last() == ls.last());
        assert(join_lines(all) =~= x + seq!['\n'] + join_lines(ls));
    }
}

/// Joining the lines of a text gives the text back, when no line ends with
/// `\r` before its line feed and the text does not end with a line feed.
pub proof fn lemma_join_lines_of_lines(s: Seq<char>)
    requires
        !contains(s, seq!['\r', '\n']),
        s.len() == 0 || s.last() != '\n',
    ensures
        join_lines(lines(s)) == s,
    decreases s.len(),
{
    if s.len() > 0 {
        let i = newline_pos(s) as int;
        lemma_newline_pos_bound(s);
        if i < s.len() {
            lemma_newline_pos_props(s);
            let head = s.take(i);
            let tail = s.skip(i + 1);
            if i > 0 && head.last() == '\r' {
                assert(s.subrange(i - 1, i + 1) =~= seq!['\r', '\n']);
                assert(occurs_at(s, seq!['\r', '\n'], i - 1));
            }
            assert(strip_cr(head) == head);
            assert(i < s.len() - 1);
            assert forall|j: int| !occurs_at(tail, seq!['\r', '\n'], j) by {
                if occurs_at(tail, seq!['\r', '\n'], j) {
                    lemma_occurs_skip(s, seq!['\r', '\n'], i + 1, j);
                }
            }
            assert(tail.last() == s.last());
            lemma_join_lines_of_lines(tail);
            assert(tail.len() > 0);
            lemma_lines_nonempty(tail);
            lemma_join_lines_cons(head, lines(tail));
            assert(head + seq!['\n'] + tail =~= s);
        } else {
            lemma_newline_pos_props(s);
            lemma_lines_single(s);
        }
    }
}

pub proof fn lemma_newline_pos_bound(s: Seq<char>)
    ensures
        newline_pos(s) <= s.len(),
    decreases s.len(),
{
    if s.len() > 0 && s[0] != '\n' {
        lemma_newline_pos_bound(s.drop_first());
    }
}

pub proof fn lemma_newline_pos_props(s: Seq<char>)
    ensures
        newline_pos(s) <= s.len(),
        newline_pos(s) < s.len() ==> s[newline_pos(s) as int] == '\n',
        forall|k: int| 0 <= k < newline_pos(s) ==> #[trigger] s[k] != '\n',
    decreases s.len(),
{
    if s.len() > 0 && s[0] != '\n' {
        let t = s.drop_first();
        lemma_newline_pos_props(t);
        assert forall|k: int| 0 <= k < newline_pos(s) implies #[trigger] s[k] != '\n' by {
            if k > 0 {
                assert(s[k] == t[k - 1]);
            }
        }
        if newline_pos(s) < s.len() {
            assert(s[newline_pos(s) as int] == t[newline_pos(t) as int]);
        }
    }
}

pub proof fn lemma_lines_nonempty(s: Seq<char>)
    requires
        s.len() > 0,
    ensures
        lines(s).len() > 0,
{
}

/// A text in which `p` does not occur is split into itself alone.
pub proof fn lemma_split_whole(s: Seq<char>, p: Seq<char>)
    requires
        p.len() > 0,
        !contains(s, p),
    ensures
        split_on(s, p) == seq![s],
{
    assert(!exists|i: int| is_first_occurrence(s, p, i));
}

/// Splitting `a + p + r` where `p` does not occur in `a`, `a` ends with a
/// line feed and `p` starts with one and has no two line feeds in a row:
/// `a` is the first piece.
pub proof fn lemma_split_peel(a: Seq<char>, p: Seq<char>, r: Seq<char>)
    requires
        p.len() > 0,
        p[0] == '\n',
        forall|o: int| 0 <= o < p.len() - 1 ==> !(#[trigger] p[o] == '\n' && p[o + 1] == '\n'),
        a.len() > 0,
        a.last() == '\n',
        !contains(a, p),
    ensures
        split_on(a + p + r, p) == seq![a] + split_on(r, p),
{
    let s = a + p + r;
    let n = a.len() as int;
    assert(s.subrange(n, n + p.len()) =~= p);
    assert forall|j: int| 0 <= j < n implies !occurs_at(s, p, j) by {
        if occurs_at(s, p, j) {
            if j + p.len() <= n {
                assert(s.subrange(j, j + p.len()) =~= a.subrange(j, j + p.len()));
                assert(occurs_at(a, p, j));
            } else {
                let o = n - 1 - j;
                assert(s[n - 1] == '\n');
                assert(s[n] == '\n');
                assert(s.subrange(j, j + p.len())[o] == s[n - 1]);
                assert(s.subrange(j, j + p.len())[o + 1] == s[n]);
                assert(p[o] == '\n' && p[o + 1] == '\n');
            }
        }
    }
    assert(is_first_occurrence(s, p, n));
    lemma_first_occurrence_unique(s, p, n);
    assert(s.take(n) =~= a);
    assert(s.skip(n + p.len()) =~= r);
}

/// A non-whitespace character at `k` bounds the trailing whitespace.
pub proof fn lemma_trailing_ws_stops(s: Seq<char>, k: int)
    requires
        0 <= k < s.len(),
        !is_white_space(s[k]),
    ensures
        trailing_ws(s) < s.len() - k,
    decreases s.len(),
{
    if s.len() > 0 && is_white_space(s.last()) {
        assert(k < s.len() - 1);
        let t = s.drop_last();
        assert(t[k] == s[k]);
        lemma_trailing_ws_stops(t, k);
    }
}

/// No line of a text holds a line feed.
pub proof fn lemma_lines_no_newline(s: Seq<char>)
    ensures
        forall|i: int, k: int|
            0 <= i < lines(s).len() && 0 <= k < lines(s)[i].len() ==> #[trigger] lines(s)[i][k]
                != '\n',
    decreases s.len(),
{
    if s.len() > 0 {
        lemma_newline_pos_props(s);
        let i = newline_pos(s) as int;
        if i < s.len() {
            let rest = s.skip(i + 1);
            lemma_lines_no_newline(rest);
            let head = strip_cr(s.take(i));
            assert forall|j: int, k: int|
                0 <= j < lines(s).len() && 0 <= k < lines(s)[j].len() implies #[trigger] lines(
                s,
            )[j][k] != '\n' by {
                if j == 0 {
                    assert(lines(s)[0] == head);
                    assert(head[k] == s[k]);
                } else {
                    assert(lines(s)[j] == lines(rest)[j - 1]);
                }
            }
        }
    }
}

/// Dropping a carriage return at the end of a line does not change its
/// trimmed text.
pub proof fn lemma_trim_strip_cr(l: Seq<char>)
    ensures
        trim(strip_cr(l)) == trim(l),
{
    if l.len() > 0 && l.last() == '\r' {
        let (a, b) = lemma_trim_bounds(l);
        let l2 = l.drop_last();
        assert(is_white_space(l[l.len() - 1]));
        if a < b {
            assert(b <= l.len() - 1);
        }
        let c = if a <= l2.len() {
            a
        } else {
            l2.len() as int
        };
        assert forall|i: int| 0 <= i < c implies is_white_space(#[trigger] l2[i]) by {
            assert(l2[i] == l[i]);
        }
        if a < b {
            assert forall|i: int| b <= i < l2.len() implies is_white_space(#[trigger] l2[i]) by {
                assert(l2[i] == l[i]);
            }
            assert(l2[a] == l[a]);
            assert(l2[b - 1] == l[b - 1]);
            lemma_trim_is(l2, a, b);
            assert(l2.subrange(a, b) =~= l.subrange(a, b));
        } else {
            assert forall|i: int| c <= i < l2.len() implies is_white_space(#[trigger] l2[i]) by {
                assert(l2[i] == l[i]);
                if i < a {
                } else {
                    assert(b <= i);
                }
            }
            lemma_trim_is(l2, c, c);
            assert(l2.subrange(c, c) =~= l.subrange(a, b));
        }
    }
}

// ---------------------------------------------------------------------------
// Stripping repeated prefixes and a repeated character
// ---------------------------------------------------------------------------

/// `str::trim_start_matches(p)`: every leading copy of `p` removed.
pub open spec fn strip_prefix_all(s: Seq<char>, p: Seq<char>) -> Seq<char>
    decreases s.len(),
{
    if p.len() > 0 && starts_with(s, p) {
        strip_prefix_all(s.skip(p.len() as int), p)
    } else {
        s
    }
}

pub fn strip_prefix_all_exec(s: &Vec<char>, p: &Vec<char>) -> (r: Vec<char>)
    ensures
        r@ == strip_prefix_all(s@, p@),
{
    let n = s.len();
    let m = p.len();
    let mut pos: usize = 0;
    assert(s@.skip(0) =~= s@);
    if m > 0 {
        while m <= n - pos && occurs_at_exec(s, p, pos)
            invariant
                m == p@.len() > 0,
                pos <= n == s@.len(),
                strip_prefix_all(s@.skip(pos as int), p@) == strip_prefix_all(s@, p@),
            decreases n - pos,
        {
            proof {
                let rest = s@.skip(pos as int);
                lemma_occurs_skip(s@, p@, pos as int, 0);
                assert(rest.subrange(0, m as int) =~= rest.take(m as int));
                assert(rest.skip(m as int) =~= s@.skip(pos + m));
            }
            pos = pos + m;
        }
        proof {
            let rest = s@.skip(pos as int);
            lemma_occurs_skip(s@, p@, pos as int, 0);
            if m <= rest.len() {
                assert(rest.subrange(0, m as int) =~= rest.take(m as int));
            }
        }
    }
    let r = slice_of(s, pos, n);
    assert(r@ =~= s@.skip(pos as int));
    r
}

/// Every leading copy of `c` removed.
pub open spec fn trim_start_char(s: Seq<char>, c: char) -> Seq<char>
    decreases s.len(),
{
    if s.len() > 0 && s[0] == c {
        trim_start_char(s.drop_first(), c)
    } else {
        s
    }
}

/// Every trailing copy of `c` removed.
pub open spec fn trim_end_char(s: Seq<char>, c: char) -> Seq<char>
    decreases s.len(),
{
    if s.len() > 0 && s.last() == c {
        trim_end_char(s.drop_last(), c)
    } else {
        s
    }
}

/// `str::trim_matches(c)`.
pub open spec fn trim_char(s: Seq<char>, c: char) -> Seq<char> {
    trim_end_char(trim_start_char(s, c), c)
}

pub fn trim_char_exec(s: &Vec<char>, c: char) -> (r: Vec<char>)
    ensures
        r@ == trim_char(s@, c),
{
    let n = s.len();
    let mut a: usize = 0;
    assert(s@.skip(0) =~= s@);
    while a < n && s[a] == c
        invariant
            a <= n == s@.len(),
            trim_start_char(s@.skip(a as int), c) == trim_start_char(s@, c),
        decreases n - a,
    {
        assert(s@.skip(a as int).drop_first() =~= s@.skip(a + 1));
        a = a + 1;
    }
    let mut b: usize = n;
    assert(s@.subrange(a as int, n as int) =~= s@.skip(a as int));
    while b > a && s[b - 1] == c
        invariant
            a <= b <= n == s@.len(),
            trim_end_char(s@.subrange(a as int, b as int), c) == trim_char(s@, c),
        decreases b,
    {
        assert(s@.subrange(a as int, b as int).drop_last() =~= s@.subrange(a as int, b - 1));
        b = b - 1;
    }
    slice_of(s, a, b)
}

// ---------------------------------------------------------------------------
// Strings
// ---------------------------------------------------------------------------

/// `String::push`: the character is appended.
#[verifier::external_body]
pub(crate) fn push_char(s: &mut String, c: char)
    ensures
        final(s)@ == old(s)@.push(c),
{
    s.push(c)
}

/// The characters of `s`.
pub fn chars_of(s: &str) -> (v: Vec<char>)
    ensures
        v@ == s@,
{
    let mut v: Vec<char> = Vec::new();
    for c in it: s.chars()
        invariant
            v@ == it.seq().take(it.index()),
    {
        v.push(c);
    }
    v
}

/// The string whose characters are `v`.
pub fn string_of(v: &Vec<char>) -> (s: String)
    ensures
        s@ == v@,
{
    let mut s = String::new();
    let mut i: usize = 0;
    while i < v.len()
        invariant
            i <= v@.len(),
            s@ == v@.take(i as int),
        decreases v@.len() - i,
    {
        push_char(&mut s, v[i]);
        i = i + 1;
        assert(s@ =~= v@.take(i as int));
    }
    assert(v@.take(i as int) =~= v@);
    s
}

} // verus!
