//! What reading the notes file gives back of what writing it wrote.
use vstd::prelude::*;
use crate::note::{
    block_separator, header, markdown_of, meta_step, note_text, notes_text, parse_block,
    parse_blocks, parse_file_blocks, parse_first_block, parsed_notes, scan_meta, title_marker,
    MetaScan, NoteView,
};
use crate::text::{
    contains, is_white_space, join_lines, lemma_join_lines_cons, lemma_join_lines_of_lines,
    lemma_lines_cut, lemma_lines_single, lemma_newline_pos_is, lemma_occurs_skip,
    lemma_split_peel, lemma_split_whole, lemma_trim_bounds, lemma_trim_ends, lemma_trim_is,
    lemma_trim_noop, lines, occurs_at, split_on, starts_with, strip_cr, strip_prefix_all, trim,
    trim_char, trim_end_char, trim_start_char,
};

verus! {

/// What a note must be for the file to give it back unchanged: a title that
/// is one line, does not start with `#` and does not end with whitespace; a
/// one-line time stamp that neither starts nor ends with `_`; a trimmed body
/// with no `\r` before a line feed; and no separator line `---` inside its
/// own text.
pub open spec fn reloadable(n: NoteView) -> bool {
    &&& n.title.len() > 0
    &&& n.title[0] != '#'
    &&& !is_white_space(n.title.last())
    &&& forall|i: int| 0 <= i < n.title.len() ==> #[trigger] n.title[i] != '\n'
    &&& forall|i: int| 0 <= i < n.created_at.len() ==> #[trigger] n.created_at[i] != '\n'
    &&& n.created_at.len() > 0 ==> n.created_at[0] != '_' && n.created_at.last() != '_'
    &&& trim(n.body) == n.body
    &&& !contains(n.body, seq!['\r', '\n'])
    &&& !contains(seq!['\n'] + note_text(n), block_separator())
}

/// The fields `(title, body, created_at)` of each note.
pub open spec fn fields_of(ns: Seq<NoteView>) -> Seq<(Seq<char>, Seq<char>, Seq<char>)> {
    ns.map_values(|n: NoteView| (n.title, n.body, n.created_at))
}

/// The notes `ns` numbered again from 1.
pub open spec fn renumbered(ns: Seq<NoteView>) -> Seq<NoteView> {
    Seq::new(ns.len(), |i: int| NoteView { id: (i + 1) as nat, ..ns[i] })
}

proof fn lemma_separator_shape()
    ensures
        block_separator().len() == 5,
        block_separator()[0] == '\n',
        forall|o: int|
            0 <= o < block_separator().len() - 1 ==> !(#[trigger] block_separator()[o] == '\n'
                && block_separator()[o + 1] == '\n'),
{
    let p = block_separator();
    assert forall|o: int| 0 <= o < p.len() - 1 implies !(#[trigger] p[o] == '\n' && p[o + 1]
        == '\n') by {
        if o == 0 {
            assert(p[1] == '-');
        } else {
            assert(p[o] == '-');
        }
    }
}

pub proof fn lemma_parse_blocks_concat(a: Seq<Seq<char>>, b: Seq<Seq<char>>)
    ensures
        parse_blocks(a + b) == parse_blocks(a) + parse_blocks(b),
    decreases b.len(),
{
    if b.len() == 0 {
        assert(a + b =~= a);
        assert(parse_blocks(a) + parse_blocks(b) =~= parse_blocks(a));
    } else {
        lemma_parse_blocks_concat(a, b.drop_last());
        assert((a + b).drop_last() =~= a + b.drop_last());
        assert((a + b).last() == b.last());
        match parse_block(b.last()) {
            Some(f) => {
                assert(parse_blocks(a + b) =~= parse_blocks(a) + parse_blocks(b));
            },
            None => {
                assert(parse_blocks(a + b) =~= parse_blocks(a) + parse_blocks(b));
            },
        }
    }
}

proof fn lemma_parse_blocks_single(x: Seq<char>)
    ensures
        parse_blocks(seq![x]) == match parse_block(x) {
            Some(f) => seq![f],
            None => Seq::<(Seq<char>, Seq<char>, Seq<char>)>::empty(),
        },
{
    assert(seq![x].drop_last() =~= Seq::<Seq<char>>::empty());
    assert(seq![x].last() == x);
    assert(parse_blocks(Seq::<Seq<char>>::empty()) =~= Seq::<(Seq<char>, Seq<char>, Seq<char>)>::empty());
    match parse_block(x) {
        Some(f) => {
            assert(parse_blocks(seq![x]) =~= seq![f]);
        },
        None => {},
    }
}

/// `trim_matches('_')` of `_C_` is `C` when `C` neither starts nor ends
/// with `_`.
proof fn lemma_trim_underscores(c: Seq<char>)
    requires
        c.len() > 0 ==> c[0] != '_' && c.last() != '_',
    ensures
        trim_char(seq!['_'] + c + seq!['_'], '_') == c,
{
    let l = seq!['_'] + c + seq!['_'];
    assert(l.drop_first() =~= c + seq!['_']);
    assert(l[0] == '_');
    assert(trim_start_char(l, '_') == trim_start_char(l.drop_first(), '_'));
    if c.len() == 0 {
        let u = seq!['_'];
        assert(c + seq!['_'] =~= u);
        assert(u.drop_first() =~= Seq::<char>::empty());
        assert(trim_start_char(u, '_') == trim_start_char(u.drop_first(), '_'));
        assert(trim_start_char(l, '_') =~= Seq::<char>::empty());
    } else {
        assert((c + seq!['_'])[0] == c[0]);
        assert(trim_start_char(l, '_') == c + seq!['_']);
        assert((c + seq!['_']).drop_last() =~= c);
        assert(trim_end_char(c + seq!['_'], '_') == trim_end_char(c, '_'));
    }
}

/// After the time stamp line, every line goes to the body.
proof fn lemma_scan_after_meta(c: Seq<char>, more: Seq<Seq<char>>)
    requires
        c.len() > 0 ==> c[0] != '_' && c.last() != '_',
    ensures
        scan_meta(seq![seq!['_'] + c + seq!['_']] + more) == (MetaScan {
            created_at: c,
            body_lines: more,
            past_meta: true,
        }),
    decreases more.len(),
{
    let l1 = seq!['_'] + c + seq!['_'];
    let all = seq![l1] + more;
    if more.len() == 0 {
        assert(all =~= seq![l1]);
        assert(all.drop_last() =~= Seq::<Seq<char>>::empty());
        lemma_trim_underscores(c);
        assert(l1[0] == '_' && l1.last() == '_');
        assert(scan_meta(all) == meta_step(scan_meta(Seq::<Seq<char>>::empty()), l1));
        assert(scan_meta(all).body_lines =~= more);
    } else {
        lemma_scan_after_meta(c, more.drop_last());
        assert(all.drop_last() =~= seq![l1] + more.drop_last());
        assert(all.last() == more.last());
        assert(more.drop_last().push(more.last()) =~= more);
    }
}

/// The trimmed block of a note: its text without the line feeds around it
/// (and without the empty line after the time stamp when the body is
/// empty).
pub open spec fn trimmed_note_text(n: NoteView) -> Seq<char> {
    let l0 = title_marker() + n.title;
    let l1 = seq!['_'] + n.created_at + seq!['_'];
    if n.body.len() > 0 {
        l0 + seq!['\n'] + l1 + seq!['\n', '\n'] + n.body
    } else {
        l0 + seq!['\n'] + l1
    }
}

proof fn lemma_note_block_trimmed(n: NoteView)
    requires
        reloadable(n),
    ensures
        trim(seq!['\n'] + note_text(n)) == trimmed_note_text(n),
{
    let tt = n.title;
    let c = n.created_at;
    let b = n.body;
    let x = seq!['\n'] + note_text(n);
    let lt = tt.len() as int;
    let lc = c.len() as int;
    let lb = b.len() as int;
    let l0 = title_marker() + tt;
    let l1 = seq!['_'] + c + seq!['_'];
    assert(x =~= seq!['\n'] + l0 + seq!['\n'] + l1 + seq!['\n', '\n'] + b + seq!['\n']);
    assert(x.len() == 10 + lt + lc + lb);
    assert(x[1] == '#');
    lemma_trim_ends(b);
    let e = if lb > 0 {
        9 + lt + lc + lb
    } else {
        7 + lt + lc
    };
    assert forall|i: int| e <= i < x.len() implies is_white_space(#[trigger] x[i]) by {
        assert(x[i] == '\n');
    }
    assert(x[0] == '\n');
    if lb > 0 {
        assert(x[e - 1] == b.last());
    } else {
        assert(x[e - 1] == '_');
    }
    lemma_trim_is(x, 1, e);
    assert(trim(x) =~= trimmed_note_text(n));
}

proof fn lemma_note_lines(n: NoteView)
    requires
        reloadable(n),
    ensures
        lines(trimmed_note_text(n)) == if n.body.len() > 0 {
            seq![title_marker() + n.title, seq!['_'] + n.created_at + seq!['_'], Seq::<char>::empty()]
                + lines(n.body)
        } else {
            seq![title_marker() + n.title, seq!['_'] + n.created_at + seq!['_']]
        },
{
    let tt = n.title;
    let c = n.created_at;
    let b = n.body;
    let lt = tt.len() as int;
    let lc = c.len() as int;
    let lb = b.len() as int;
    let l0 = title_marker() + tt;
    let l1 = seq!['_'] + c + seq!['_'];
    let t = trimmed_note_text(n);
    assert(t.len() > 0);
    assert(t[3 + lt] == '\n');
    assert forall|k: int| 0 <= k < 3 + lt implies #[trigger] t[k] != '\n' by {
        assert(t[k] == l0[k]);
        if k >= 3 {
            assert(l0[k] == tt[k - 3]);
        }
    }
    lemma_lines_cut(t, 3 + lt);
    assert(t.take(3 + lt) =~= l0);
    assert(l0.last() == tt.last());
    assert(strip_cr(l0) == l0);
    let r1 = t.skip(4 + lt);
    assert forall|k: int| 0 <= k < lc + 2 implies #[trigger] l1[k] != '\n' by {
        if 0 < k < lc + 1 {
            assert(l1[k] == c[k - 1]);
        }
    }
    if lb > 0 {
        assert(r1 =~= l1 + seq!['\n', '\n'] + b);
        assert forall|k: int| 0 <= k < lc + 2 implies #[trigger] r1[k] != '\n' by {
            assert(r1[k] == l1[k]);
        }
        lemma_lines_cut(r1, lc + 2);
        assert(r1.take(lc + 2) =~= l1);
        assert(strip_cr(l1) == l1);
        let r2 = r1.skip(lc + 3);
        assert(r2 =~= seq!['\n'] + b);
        lemma_lines_cut(r2, 0);
        assert(r2.take(0) =~= Seq::<char>::empty());
        assert(strip_cr(Seq::<char>::empty()) =~= Seq::<char>::empty());
        assert(r2.skip(1) =~= b);
        assert(lines(t) =~= seq![l0, l1, Seq::<char>::empty()] + lines(b));
    } else {
        assert(r1 =~= l1);
        lemma_lines_single(r1);
        assert(lines(t) =~= seq![l0, l1]);
    }
}

proof fn lemma_note_body(n: NoteView)
    requires
        reloadable(n),
    ensures
        scan_meta(lines(trimmed_note_text(n)).skip(1)).created_at == n.created_at,
        trim(join_lines(scan_meta(lines(trimmed_note_text(n)).skip(1)).body_lines)) == n.body,
{
    let c = n.created_at;
    let b = n.body;
    let l0 = title_marker() + n.title;
    let l1 = seq!['_'] + c + seq!['_'];
    lemma_note_lines(n);
    let ls = lines(trimmed_note_text(n));
    lemma_trim_ends(b);
    if b.len() > 0 {
        let lb_lines = lines(b);
        assert(ls.skip(1) =~= seq![l1] + (seq![Seq::<char>::empty()] + lb_lines));
        lemma_scan_after_meta(c, seq![Seq::<char>::empty()] + lb_lines);
        assert(lb_lines.len() > 0);
        lemma_join_lines_cons(Seq::<char>::empty(), lb_lines);
        lemma_join_lines_of_lines(b);
        let joined = join_lines(seq![Seq::<char>::empty()] + lb_lines);
        assert(joined =~= seq!['\n'] + b);
        assert(joined[1] == b[0]);
        assert(joined[joined.len() - 1] == b.last());
        lemma_trim_is(joined, 1, joined.len() as int);
        assert(trim(joined) =~= b);
    } else {
        assert(ls.skip(1) =~= seq![l1] + Seq::<Seq<char>>::empty());
        lemma_scan_after_meta(c, Seq::<Seq<char>>::empty());
        assert(b =~= Seq::<char>::empty());
        lemma_trim_noop(Seq::<char>::empty());
    }
}

/// A note's text after a line feed is a block that gives back the note's
/// title, body and time stamp.
proof fn lemma_note_block_parsed(n: NoteView)
    requires
        reloadable(n),
    ensures
        parse_block(seq!['\n'] + note_text(n)) == Some((n.title, n.body, n.created_at)),
{
    let tt = n.title;
    let l0 = title_marker() + tt;
    lemma_note_block_trimmed(n);
    lemma_note_lines(n);
    lemma_note_body(n);
    let t = trimmed_note_text(n);
    assert(t.len() > 0);
    assert(lines(t)[0] == l0);
    assert(l0[0] == '#');
    assert(l0.last() == tt.last());
    lemma_trim_noop(l0);
    assert(starts_with(l0, title_marker())) by {
        assert(l0.take(3) =~= title_marker());
    }
    assert(l0.skip(3) =~= tt);
    assert(!starts_with(tt, title_marker())) by {
        if tt.len() >= 3 {
            assert(tt.take(3)[0] == tt[0]);
        }
    }
    assert(title_marker().len() == 3);
    assert(strip_prefix_all(l0, title_marker()) == strip_prefix_all(
        l0.skip(title_marker().len() as int),
        title_marker(),
    ));
    assert(strip_prefix_all(tt, title_marker()) == tt);
}

/// The file text after the first note block, `\n` and the remaining notes,
/// gives back each of them.
proof fn lemma_rest_parsed(ns: Seq<NoteView>)
    requires
        forall|i: int| 0 <= i < ns.len() ==> reloadable(#[trigger] ns[i]),
    ensures
        parse_blocks(split_on(seq!['\n'] + notes_text(ns), block_separator())) == fields_of(ns),
    decreases ns.len(),
{
    lemma_separator_shape();
    let sep = block_separator();
    if ns.len() == 0 {
        let r = seq!['\n'] + notes_text(ns);
        assert(r =~= seq!['\n']);
        assert(!contains(r, sep)) by {
            assert forall|j: int| !occurs_at(r, sep, j) by {}
        }
        lemma_split_whole(r, sep);
        lemma_parse_blocks_single(r);
        assert(trim(r).len() == 0) by {
            lemma_trim_is(r, 1, 1);
        }
        assert(fields_of(ns) =~= Seq::<(Seq<char>, Seq<char>, Seq<char>)>::empty());
    } else {
        let n = ns[0];
        let rest = ns.drop_first();
        assert forall|i: int| 0 <= i < rest.len() implies reloadable(#[trigger] rest[i]) by {
            assert(rest[i] == ns[i + 1]);
        }
        lemma_rest_parsed(rest);
        let a = seq!['\n'] + note_text(n);
        assert(seq!['\n'] + notes_text(ns) =~= a + sep + (seq!['\n'] + notes_text(rest)));
        assert(a.last() == '\n');
        lemma_split_peel(a, sep, seq!['\n'] + notes_text(rest));
        lemma_parse_blocks_concat(seq![a], split_on(seq!['\n'] + notes_text(rest), sep));
        lemma_note_block_parsed(n);
        lemma_parse_blocks_single(a);
        assert(fields_of(ns) =~= seq![(n.title, n.body, n.created_at)] + fields_of(rest));
    }
}

proof fn lemma_header_no_separator()
    ensures
        !contains(header(), block_separator()),
{
    let h = header();
    let sep = block_separator();
    assert forall|k: int| 0 <= k < h.len() implies #[trigger] h[k] != '-' by {
        assert(h =~= seq!['#', ' ', 'S', 't', 'i', 'c', 'k', 'y', ' ', 'N', 'o', 't', 'e', 's', '\n', '\n']);
    }
    assert forall|j: int| !occurs_at(h, sep, j) by {
        if occurs_at(h, sep, j) {
            assert(h.subrange(j, j + 5)[1] == sep[1]);
            assert(h[j + 1] == '-');
        }
    }
}

/// `# Sticky Notes` and its line feed: the header is this line and an empty
/// one.
pub open spec fn heading_line() -> Seq<char> {
    header().take(15)
}

pub open spec fn opt_seq(
    o: Option<(Seq<char>, Seq<char>, Seq<char>)>,
) -> Seq<(Seq<char>, Seq<char>, Seq<char>)> {
    match o {
        Some(f) => seq![f],
        None => seq![],
    }
}

proof fn lemma_heading_line()
    ensures
        heading_line() =~= seq!['#', ' ', 'S', 't', 'i', 'c', 'k', 'y', ' ', 'N', 'o', 't', 'e', 's', '\n'],
        header() =~= heading_line() + seq!['\n'],
        forall|k: int| 0 <= k < 14 ==> #[trigger] heading_line()[k] != '\n',
{
    let p = heading_line();
    assert(p =~= seq!['#', ' ', 'S', 't', 'i', 'c', 'k', 'y', ' ', 'N', 'o', 't', 'e', 's', '\n']);
    assert forall|k: int| 0 <= k < 14 implies #[trigger] p[k] != '\n' by {
        assert(p =~= seq!['#', ' ', 'S', 't', 'i', 'c', 'k', 'y', ' ', 'N', 'o', 't', 'e', 's', '\n']);
    }
}

/// The first block of a file is read from the file's heading on: after the
/// heading line the rest of the block is read as a block.
proof fn lemma_heading_block(y: Seq<char>)
    ensures
        parse_first_block(heading_line() + y) == parse_block(y),
{
    lemma_heading_line();
    let p = heading_line();
    let x = p + y;
    let (a, b) = lemma_trim_bounds(y);
    assert(x[0] == '#');
    assert forall|k: int| 0 <= k < 14 implies #[trigger] x[k] != '\n' by {
        assert(x[k] == p[k]);
    }
    if a < b {
        assert forall|i: int| 15 + b <= i < x.len() implies is_white_space(#[trigger] x[i]) by {
            assert(x[i] == y[i - 15]);
        }
        assert(x[15 + b - 1] == y[b - 1]);
        lemma_trim_is(x, 0, 15 + b);
        let bx = x.subrange(0, 15 + b);
        assert(bx[0] == '#' && bx[1] == ' ');
        assert forall|k: int| 0 <= k < 14 implies #[trigger] bx[k] != '\n' by {
            assert(bx[k] == x[k]);
        }
        assert(bx[14] == '\n');
        lemma_newline_pos_is(bx, 14);
        let rest = bx.skip(15);
        assert(rest =~= y.take(b));
        assert forall|i: int| 0 <= i < a implies is_white_space(#[trigger] rest[i]) by {
            assert(rest[i] == y[i]);
        }
        assert(rest[a] == y[a]);
        assert(rest[b - 1] == y[b - 1]);
        lemma_trim_is(rest, a, b);
        assert(trim(rest) =~= trim(y));
        assert(parse_block(rest) == parse_block(y));
    } else {
        assert forall|i: int| 14 <= i < x.len() implies is_white_space(#[trigger] x[i]) by {
            if i >= 15 {
                assert(x[i] == y[i - 15]);
                if i - 15 < a {
                } else {
                    assert(b <= i - 15);
                }
            }
        }
        assert(x[13] == 's');
        lemma_trim_is(x, 0, 14);
        let bx = x.subrange(0, 14);
        assert(bx[0] == '#' && bx[1] == ' ');
        assert forall|k: int| 0 <= k < 14 implies #[trigger] bx[k] != '\n' by {
            assert(bx[k] == x[k]);
        }
        lemma_newline_pos_is(bx, 14);
        assert(trim(y).len() == 0);
        assert(trim(Seq::<char>::empty()).len() == 0) by {
            lemma_trim_noop(Seq::<char>::empty());
        }
    }
}

/// Reading the blocks of a file: the first by `parse_first_block`, the rest
/// by `parse_block`.
proof fn lemma_file_blocks_front(x: Seq<char>, rest: Seq<Seq<char>>)
    ensures
        parse_file_blocks(seq![x] + rest) == opt_seq(parse_first_block(x)) + parse_blocks(rest),
    decreases rest.len(),
{
    let all = seq![x] + rest;
    if rest.len() == 0 {
        assert(all =~= seq![x]);
        assert(all.drop_last() =~= Seq::<Seq<char>>::empty());
        assert(parse_file_blocks(Seq::<Seq<char>>::empty()) =~= Seq::<(Seq<char>, Seq<char>, Seq<char>)>::empty());
        assert(parse_blocks(rest) =~= Seq::<(Seq<char>, Seq<char>, Seq<char>)>::empty());
        assert(parse_file_blocks(all) =~= opt_seq(parse_first_block(x)) + parse_blocks(rest));
    } else {
        lemma_file_blocks_front(x, rest.drop_last());
        assert(all.drop_last() =~= seq![x] + rest.drop_last());
        assert(all.last() == rest.last());
        match parse_block(rest.last()) {
            Some(f) => {
                assert(parse_file_blocks(all) =~= opt_seq(parse_first_block(x)) + parse_blocks(rest));
            },
            None => {
                assert(parse_file_blocks(all) =~= opt_seq(parse_first_block(x)) + parse_blocks(rest));
            },
        }
    }
}

/// No separator occurs in the heading line followed by a text that starts
/// with a line feed and holds none.
proof fn lemma_first_no_separator(y: Seq<char>)
    requires
        y.len() > 0,
        y[0] == '\n',
        !contains(y, block_separator()),
    ensures
        !contains(heading_line() + y, block_separator()),
{
    lemma_heading_line();
    let p = heading_line();
    let x = p + y;
    let sep = block_separator();
    assert forall|j: int| !occurs_at(x, sep, j) by {
        if occurs_at(x, sep, j) {
            if j >= 15 {
                assert(x.skip(15) =~= y);
                lemma_occurs_skip(x, sep, 15, j - 15);
            } else {
                assert(x.subrange(j, j + 5)[0] == sep[0]);
                assert(x[j] == '\n');
                if j < 14 {
                    assert(x[j] == p[j]);
                } else {
                    assert(x.subrange(j, j + 5)[1] == sep[1]);
                    assert(x[15] == y[0]);
                }
            }
        }
    }
}

/// Reading back the file written for `reloadable` notes gives every note
/// back, in order, numbered again from 1.
pub proof fn lemma_reload(ns: Seq<NoteView>)
    requires
        forall|i: int| 0 <= i < ns.len() ==> reloadable(#[trigger] ns[i]),
    ensures
        parsed_notes(markdown_of(ns)) == renumbered(ns),
{
    lemma_separator_shape();
    lemma_heading_line();
    let sep = block_separator();
    let h = header();
    let p = heading_line();
    if ns.len() == 0 {
        assert(markdown_of(ns) =~= h);
        lemma_header_no_separator();
        lemma_split_whole(h, sep);
        lemma_file_blocks_front(h, Seq::<Seq<char>>::empty());
        assert(seq![h] + Seq::<Seq<char>>::empty() =~= seq![h]);
        lemma_heading_block(seq!['\n']);
        assert(h =~= p + seq!['\n']);
        assert(trim(seq!['\n']).len() == 0) by {
            lemma_trim_is(seq!['\n'], 1, 1);
        }
        assert(parse_blocks(Seq::<Seq<char>>::empty()) =~= Seq::<(Seq<char>, Seq<char>, Seq<char>)>::empty());
        assert(parsed_notes(markdown_of(ns)) =~= renumbered(ns));
    } else {
        let n = ns[0];
        let rest = ns.drop_first();
        assert forall|i: int| 0 <= i < rest.len() implies reloadable(#[trigger] rest[i]) by {
            assert(rest[i] == ns[i + 1]);
        }
        let y = seq!['\n'] + note_text(n);
        let a = h + note_text(n);
        assert(a =~= p + y);
        lemma_first_no_separator(y);
        assert(markdown_of(ns) =~= a + sep + (seq!['\n'] + notes_text(rest)));
        assert(a.last() == '\n');
        lemma_split_peel(a, sep, seq!['\n'] + notes_text(rest));
        lemma_rest_parsed(rest);
        lemma_file_blocks_front(a, split_on(seq!['\n'] + notes_text(rest), sep));
        lemma_heading_block(y);
        lemma_note_block_parsed(n);
        let es = parse_file_blocks(split_on(markdown_of(ns), sep));
        assert(es =~= fields_of(ns));
        assert(parsed_notes(markdown_of(ns)) =~= renumbered(ns));
    }
}

} // verus!
