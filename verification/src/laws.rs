use vstd::prelude::*;

use crate::config::Args;
use crate::render::cat_padded;
use crate::render::pad_seq;
use crate::render::padded_field;
use crate::render::render_line;
use crate::render::render_lines;
use crate::render::retable_spec;
use crate::render::table_widths;
use crate::split::comment_of;
use crate::split::content_of;
use crate::split::is_ws;
use crate::split::lemma_comment_split;
use crate::split::lemma_split_tok_fields;
use crate::split::lemma_split_ws_fields;
use crate::split::lemma_split_ws_no_tok;
use crate::split::lemma_split_ws_run;
use crate::split::split_tok;
use crate::split::split_ws;
use crate::table::col_width_raw;
use crate::table::lemma_col_width_ge;
use crate::table::line_field_width;
use crate::table::line_fields;
use crate::table::lines_of;
use crate::table::num_columns;
use crate::width::cell_width;
use crate::width::lemma_str_width_concat;
use crate::width::str_width;

verus! {

/// The sum of the first `n` column widths.
pub open spec fn sum_widths(ws: Seq<int>, n: int) -> int
    decreases n,
{
    if n <= 0 {
        0
    } else {
        sum_widths(ws, n - 1) + ws[n - 1]
    }
}

/// A run of `n` padding characters of cell width one has display width `n`.
pub proof fn lemma_pad_seq_width(n: int, pad: char)
    requires
        cell_width(pad) == 1,
    ensures
        str_width(pad_seq(n, pad)) == if n <= 0 {
            0
        } else {
            n
        },
    decreases n,
{
    if n > 0 {
        lemma_pad_seq_width(n - 1, pad);
        assert(pad_seq(n, pad).drop_first() =~= pad_seq(n - 1, pad));
    }
}

/// Padded fields have exactly their column's width, so the first `n` padded
/// fields together occupy the sum of the first `n` column widths.
pub proof fn lemma_cat_padded_width(fs: Seq<Seq<char>>, ws: Seq<int>, pad: char, n: int)
    requires
        cell_width(pad) == 1,
        0 <= n <= fs.len(),
        n <= ws.len(),
        forall|j: int| 0 <= j < n ==> ws[j] >= str_width(#[trigger] fs[j]),
    ensures
        str_width(cat_padded(fs, ws, pad, n)) == sum_widths(ws, n),
    decreases n,
{
    if n > 0 {
        lemma_cat_padded_width(fs, ws, pad, n - 1);
        lemma_str_width_concat(cat_padded(fs, ws, pad, n - 1), padded_field(fs[n - 1], ws[n - 1], pad));
        lemma_str_width_concat(fs[n - 1], pad_seq(ws[n - 1] - str_width(fs[n - 1]), pad));
        lemma_pad_seq_width(ws[n - 1] - str_width(fs[n - 1]), pad);
    }
}

/// Each prefix of padded fields is no longer than the next.
pub proof fn lemma_cat_padded_len_mono(fs: Seq<Seq<char>>, ws: Seq<int>, pad: char, k: int, n: int)
    requires
        k <= n,
    ensures
        cat_padded(fs, ws, pad, k).len() <= cat_padded(fs, ws, pad, n).len(),
    decreases n - k,
{
    if k < n {
        lemma_cat_padded_len_mono(fs, ws, pad, k, n - 1);
    }
}

/// A shorter prefix of padded fields is a prefix of a longer one.
pub proof fn lemma_cat_padded_prefix(fs: Seq<Seq<char>>, ws: Seq<int>, pad: char, k: int, n: int)
    requires
        0 <= k <= n,
    ensures
        cat_padded(fs, ws, pad, n).take(cat_padded(fs, ws, pad, k).len() as int) == cat_padded(
            fs,
            ws,
            pad,
            k,
        ),
    decreases n - k,
{
    if k == n {
        assert(cat_padded(fs, ws, pad, n).take(cat_padded(fs, ws, pad, k).len() as int)
            =~= cat_padded(fs, ws, pad, k));
    } else {
        lemma_cat_padded_prefix(fs, ws, pad, k, n - 1);
        lemma_cat_padded_len_mono(fs, ws, pad, k, n - 1);
        assert(cat_padded(fs, ws, pad, n).take(cat_padded(fs, ws, pad, k).len() as int)
            =~= cat_padded(fs, ws, pad, n - 1).take(cat_padded(fs, ws, pad, k).len() as int));
    }
}

/// Column alignment: in a rendered data line, the text before field `i` is
/// the first `i` fields padded to their column widths, and its display width
/// is the sum of those `i` column widths — the same offset for every line,
/// whatever its fields hold. Requires a padding character one cell wide —
/// which the width wrapper's contract lets executable callers establish for
/// any printable ASCII padding — and a width table that covers the fields,
/// as the computed table always does.
pub proof fn lemma_column_alignment(line: Seq<char>, args: Args, ws: Seq<int>, i: int)
    requires
        cell_width(args.padding) == 1,
        content_of(line, args.comment_token).len() > 0,
        line_fields(line, args).len() > 0,
        0 <= i < line_fields(line, args).len(),
        line_fields(line, args).len() <= ws.len(),
        forall|j: int|
            0 <= j < line_fields(line, args).len() ==> ws[j] >= str_width(
                #[trigger] line_fields(line, args)[j],
            ),
    ensures
        render_line(line, args, ws).take(
            cat_padded(line_fields(line, args), ws, args.padding, i).len() as int,
        ) == cat_padded(line_fields(line, args), ws, args.padding, i),
        str_width(cat_padded(line_fields(line, args), ws, args.padding, i)) == sum_widths(ws, i),
{
    let fs = line_fields(line, args);
    let comment = comment_of(line, args.comment_token);
    let n = fs.len() as int;
    lemma_cat_padded_width(fs, ws, args.padding, i);
    if comment.len() == 0 {
        lemma_cat_padded_prefix(fs, ws, args.padding, i, n - 1);
        lemma_cat_padded_len_mono(fs, ws, args.padding, i, n - 1);
        assert(render_line(line, args, ws) == cat_padded(fs, ws, args.padding, n - 1) + fs.last());
        assert(render_line(line, args, ws).take(cat_padded(fs, ws, args.padding, i).len() as int)
            =~= cat_padded(fs, ws, args.padding, n - 1).take(
            cat_padded(fs, ws, args.padding, i).len() as int,
        ));
    } else {
        lemma_cat_padded_prefix(fs, ws, args.padding, i, n);
        lemma_cat_padded_len_mono(fs, ws, args.padding, i, n);
        assert(render_line(line, args, ws) == cat_padded(fs, ws, args.padding, n) + comment);
        assert(render_line(line, args, ws).take(cat_padded(fs, ws, args.padding, i).len() as int)
            =~= cat_padded(fs, ws, args.padding, n).take(
            cat_padded(fs, ws, args.padding, i).len() as int,
        ));
    }
}

/// Ragged trailing edge: a rendered line without a comment is exactly the
/// padded fields up to the last one, then the last field with nothing
/// appended after it (or empty, when the line has no fields at all); so
/// unless the last field itself ends in the padding glyph — or is empty
/// after a trailing delimiter, leaving the previous column's padding bare —
/// the line does not end in the padding character.
pub proof fn lemma_ragged_edge(line: Seq<char>, args: Args, ws: Seq<int>)
    requires
        comment_of(line, args.comment_token).len() == 0,
    ensures
        line_fields(line, args).len() == 0 ==> render_line(line, args, ws)
            == Seq::<char>::empty(),
        line_fields(line, args).len() > 0 ==> render_line(line, args, ws) == cat_padded(
            line_fields(line, args),
            ws,
            args.padding,
            line_fields(line, args).len() - 1,
        ) + line_fields(line, args).last(),
        line_fields(line, args).len() > 0 && line_fields(line, args).last().len() > 0
            && line_fields(line, args).last().last() != args.padding ==> render_line(
            line,
            args,
            ws,
        ).last() != args.padding,
{
    let fs = line_fields(line, args);
    let content = content_of(line, args.comment_token);
    lemma_comment_split(line, args.comment_token);
    if content.len() == 0 {
        assert(fs.len() == 0);
        assert(render_line(line, args, ws) =~= Seq::<char>::empty());
    } else if fs.len() == 0 {
        assert(render_line(line, args, ws) =~= Seq::<char>::empty());
    } else if fs.last().len() > 0 {
        assert(render_line(line, args, ws).last() == fs.last().last());
    }
}

/// Comment passthrough: every rendered line ends with its comment suffix,
/// byte for byte.
pub proof fn lemma_comment_passthrough(line: Seq<char>, args: Args, ws: Seq<int>)
    ensures
        render_line(line, args, ws).len() >= comment_of(line, args.comment_token).len(),
        render_line(line, args, ws).skip(
            render_line(line, args, ws).len() - comment_of(line, args.comment_token).len(),
        ) == comment_of(line, args.comment_token),
{
    let content = content_of(line, args.comment_token);
    let comment = comment_of(line, args.comment_token);
    let fs = line_fields(line, args);
    let r = render_line(line, args, ws);
    if content.len() == 0 || fs.len() == 0 {
        assert(r == comment);
        assert(r.skip(r.len() - comment.len()) =~= comment);
    } else if comment.len() == 0 {
        assert(r.skip(r.len() - comment.len()) =~= comment);
    } else {
        assert(r == cat_padded(fs, ws, args.padding, fs.len() as int) + comment);
        assert(r.skip(r.len() - comment.len()) =~= comment);
    }
}

/// Comment independence: the width table never reads comment suffixes. Two
/// sets of lines whose contents agree line by line — whatever their comments
/// — have the same column count and the same raw column widths.
pub proof fn lemma_widths_ignore_comments(
    ls1: Seq<Seq<char>>,
    ls2: Seq<Seq<char>>,
    args: Args,
    col: int,
)
    requires
        ls1.len() == ls2.len(),
        forall|i: int|
            0 <= i < ls1.len() ==> content_of(#[trigger] ls1[i], args.comment_token) == content_of(
                ls2[i],
                args.comment_token,
            ),
    ensures
        col_width_raw(ls1, args, col) == col_width_raw(ls2, args, col),
        num_columns(ls1, args) == num_columns(ls2, args),
    decreases ls1.len(),
{
    if ls1.len() > 0 {
        assert forall|i: int| 0 <= i < ls1.drop_last().len() implies content_of(
            #[trigger] ls1.drop_last()[i],
            args.comment_token,
        ) == content_of(ls2.drop_last()[i], args.comment_token) by {
            assert(ls1.drop_last()[i] == ls1[i]);
            assert(ls2.drop_last()[i] == ls2[i]);
        }
        lemma_widths_ignore_comments(ls1.drop_last(), ls2.drop_last(), args, col);
        assert(content_of(ls1[ls1.len() - 1], args.comment_token) == content_of(
            ls2[ls2.len() - 1],
            args.comment_token,
        ));
        assert(line_fields(ls1.last(), args) == line_fields(ls2.last(), args));
    }
}

/// Width monotonicity: every computed column width is the configured extra
/// width plus the widest field of that column, so it is at least the extra
/// width plus the display width of any single field in the column.
pub proof fn lemma_width_monotonic(text: Seq<char>, args: Args, i: int, col: int)
    requires
        0 <= col < table_widths(text, args).len(),
        0 <= i < lines_of(text).len(),
    ensures
        table_widths(text, args)[col] == args.width + col_width_raw(lines_of(text), args, col),
        table_widths(text, args)[col] >= args.width + line_field_width(
            lines_of(text)[i],
            args,
            col,
        ),
{
    lemma_col_width_ge(lines_of(text), args, i, col);
}

/// The fields from `i` on (up to `n`), each padded to its column's width,
/// concatenated from the left.
pub open spec fn cat_from(fs: Seq<Seq<char>>, ws: Seq<int>, pad: char, i: int, n: int) -> Seq<
    char,
>
    decreases n - i,
{
    if i >= n {
        Seq::<char>::empty()
    } else {
        padded_field(fs[i], ws[i], pad) + cat_from(fs, ws, pad, i + 1, n)
    }
}

/// Peeling the last padded field off a left-to-right concatenation.
pub proof fn lemma_cat_from_snoc(fs: Seq<Seq<char>>, ws: Seq<int>, pad: char, i: int, n: int)
    requires
        i <= n - 1,
    ensures
        cat_from(fs, ws, pad, i, n) == cat_from(fs, ws, pad, i, n - 1) + padded_field(
            fs[n - 1],
            ws[n - 1],
            pad,
        ),
    decreases n - i,
{
    if i == n - 1 {
        assert(cat_from(fs, ws, pad, i + 1, n) =~= Seq::<char>::empty());
        assert(cat_from(fs, ws, pad, i, n - 1) =~= Seq::<char>::empty());
        assert(cat_from(fs, ws, pad, i, n) =~= cat_from(fs, ws, pad, i, n - 1) + padded_field(
            fs[n - 1],
            ws[n - 1],
            pad,
        ));
    } else {
        lemma_cat_from_snoc(fs, ws, pad, i + 1, n);
        assert(cat_from(fs, ws, pad, i, n) =~= cat_from(fs, ws, pad, i, n - 1) + padded_field(
            fs[n - 1],
            ws[n - 1],
            pad,
        ));
    }
}

/// The two directions of building the padded prefix agree.
pub proof fn lemma_cat_padded_is_cat_from(fs: Seq<Seq<char>>, ws: Seq<int>, pad: char, n: int)
    ensures
        cat_padded(fs, ws, pad, n) == cat_from(fs, ws, pad, 0, n),
    decreases n,
{
    if n <= 0 {
    } else {
        lemma_cat_padded_is_cat_from(fs, ws, pad, n - 1);
        if n >= 1 {
            lemma_cat_from_snoc(fs, ws, pad, 0, n);
        }
    }
}

/// Leading padding spaces are discarded by whitespace splitting.
pub proof fn lemma_split_ws_strip_spaces(p: int, tail: Seq<char>)
    ensures
        split_ws(pad_seq(p, ' ') + tail) == split_ws(tail),
    decreases p,
{
    if p <= 0 {
        assert(pad_seq(p, ' ') + tail =~= tail);
    } else {
        let s = pad_seq(p, ' ') + tail;
        assert(s[0] == ' ');
        assert(is_ws(' '));
        assert(s.drop_first() =~= pad_seq(p - 1, ' ') + tail);
        lemma_split_ws_strip_spaces(p - 1, tail);
    }
}

/// A nonempty run of non-whitespace characters splits to itself alone.
pub proof fn lemma_split_ws_single_field(f: Seq<char>)
    requires
        f.len() >= 1,
        forall|j: int| 0 <= j < f.len() ==> !is_ws(#[trigger] f[j]),
    ensures
        split_ws(f) == seq![f],
{
    lemma_split_ws_run(f, f.len() as int);
    assert(f.take(f.len() as int) =~= f);
    assert(f.skip(f.len() as int) =~= Seq::<char>::empty());
    assert(seq![f] + split_ws(Seq::<char>::empty()) =~= seq![f]);
}

/// Re-splitting padded fields: splitting the space-padded fields `i..n`
/// followed by any `tail` yields exactly those fields, then the split of the
/// tail. Each field must be nonempty, free of whitespace, and narrower than
/// its column, so that at least one space follows it.
pub proof fn lemma_split_ws_cat(
    fs: Seq<Seq<char>>,
    ws: Seq<int>,
    i: int,
    n: int,
    tail: Seq<char>,
)
    requires
        0 <= i <= n <= fs.len(),
        n <= ws.len(),
        forall|k: int| i <= k < n ==> (#[trigger] fs[k]).len() >= 1,
        forall|k: int, j: int| i <= k < n && 0 <= j < fs[k].len() ==> !is_ws(#[trigger] fs[k][j]),
        forall|k: int| i <= k < n ==> #[trigger] ws[k] >= str_width(fs[k]) + 1,
    ensures
        split_ws(cat_from(fs, ws, ' ', i, n) + tail) == fs.subrange(i, n) + split_ws(tail),
    decreases n - i,
{
    if i == n {
        assert(cat_from(fs, ws, ' ', i, n) + tail =~= tail);
        assert(fs.subrange(i, n) + split_ws(tail) =~= split_ws(tail));
    } else {
        let f = fs[i];
        let p = ws[i] - str_width(f);
        let rest = cat_from(fs, ws, ' ', i + 1, n) + tail;
        let whole = cat_from(fs, ws, ' ', i, n) + tail;
        assert(p >= 1);
        assert(whole =~= f + (pad_seq(p, ' ') + rest));
        let after = pad_seq(p, ' ') + rest;
        assert(forall|j: int| 0 <= j < f.len() ==> whole[j] == f[j]);
        assert(whole[f.len() as int] == after[0]);
        assert(after[0] == ' ');
        assert(is_ws(' '));
        lemma_split_ws_run(whole, f.len() as int);
        assert(whole.take(f.len() as int) =~= f);
        assert(whole.skip(f.len() as int) =~= after);
        lemma_split_ws_strip_spaces(p, rest);
        lemma_split_ws_cat(fs, ws, i + 1, n, tail);
        assert(split_ws(whole) == seq![f] + (fs.subrange(i + 1, n) + split_ws(tail)));
        assert(seq![f] + (fs.subrange(i + 1, n) + split_ws(tail)) =~= fs.subrange(i, n)
            + split_ws(tail));
    }
}

/// A character other than the space used for padding, occurring in no field,
/// does not occur in the padded concatenation either.
pub proof fn lemma_cat_from_no_tok(fs: Seq<Seq<char>>, ws: Seq<int>, i: int, n: int, t: char)
    requires
        0 <= i <= n <= fs.len(),
        t != ' ',
        forall|k: int, j: int|
            i <= k < n && 0 <= j < fs[k].len() ==> #[trigger] fs[k][j] != t,
    ensures
        forall|j: int|
            0 <= j < cat_from(fs, ws, ' ', i, n).len() ==> #[trigger] cat_from(
                fs,
                ws,
                ' ',
                i,
                n,
            )[j] != t,
    decreases n - i,
{
    if i < n {
        lemma_cat_from_no_tok(fs, ws, i + 1, n, t);
        let head = padded_field(fs[i], ws[i], ' ');
        assert forall|j: int| 0 <= j < head.len() implies #[trigger] head[j] != t by {
            if j < fs[i].len() {
                assert(head[j] == fs[i][j]);
            } else {
                assert(head[j] == pad_seq(ws[i] - str_width(fs[i]), ' ')[j - fs[i].len()]);
            }
        }
        assert forall|j: int| 0 <= j < cat_from(fs, ws, ' ', i, n).len() implies #[trigger] cat_from(
            fs,
            ws,
            ' ',
            i,
            n,
        )[j] != t by {
            if j < head.len() {
                assert(cat_from(fs, ws, ' ', i, n)[j] == head[j]);
            } else {
                assert(cat_from(fs, ws, ' ', i, n)[j] == cat_from(fs, ws, ' ', i + 1, n)[j
                    - head.len()]);
            }
        }
    }
}

/// Re-rendering one line: in whitespace mode with space padding, a rendered
/// line splits back into the same fields and the same comment, and rendering
/// it again against the same width table reproduces it exactly.
pub proof fn lemma_render_line_reparse(line: Seq<char>, args: Args, ws: Seq<int>)
    requires
        args.column_token is None,
        args.padding == ' ',
        args.comment_token != Some(' '),
        line_fields(line, args).len() <= ws.len(),
        forall|j: int|
            0 <= j < line_fields(line, args).len() ==> #[trigger] ws[j] >= str_width(
                line_fields(line, args)[j],
            ) + 1,
    ensures
        line_fields(render_line(line, args, ws), args) == line_fields(line, args),
        comment_of(render_line(line, args, ws), args.comment_token) == comment_of(
            line,
            args.comment_token,
        ),
        render_line(render_line(line, args, ws), args, ws) == render_line(line, args, ws),
{
    let ct = args.comment_token;
    let content = content_of(line, ct);
    let comment = comment_of(line, ct);
    let fs = line_fields(line, args);
    let r = render_line(line, args, ws);
    lemma_comment_split(line, ct);
    lemma_split_ws_fields(content);
    if content.len() == 0 || fs.len() == 0 {
        assert(r == comment);
        lemma_comment_split(r, ct);
        if comment.len() == 0 {
            assert(r.len() == 0);
            assert(content_of(r, ct) =~= Seq::<char>::empty());
            assert(comment_of(r, ct) =~= Seq::<char>::empty());
            assert(line_fields(r, args) =~= fs);
            assert(render_line(r, args, ws) =~= r);
        } else {
            match ct {
                Some(t) => {
                    assert(comment[0] == t);
                    assert(r[0] == t);
                    crate::split::lemma_find_tok_from_scan(r, t, 0);
                    assert(content_of(r, ct) =~= Seq::<char>::empty());
                    assert(comment_of(r, ct) =~= r);
                    assert(line_fields(r, args) =~= fs);
                    assert(render_line(r, args, ws) == comment_of(r, ct));
                },
                None => {
                    assert(false);
                },
            }
        }
    } else {
        let n = fs.len() as int;
        lemma_cat_padded_is_cat_from(fs, ws, ' ', n);
        lemma_cat_padded_is_cat_from(fs, ws, ' ', n - 1);
        if comment.len() == 0 {
            assert(r == cat_from(fs, ws, ' ', 0, n - 1) + fs.last());
            assert(r.len() >= fs.last().len());
            assert(fs.last().len() >= 1);
            match ct {
                Some(t) => {
                    lemma_split_ws_no_tok(content, t);
                    lemma_cat_from_no_tok(fs, ws, 0, n - 1, t);
                    assert forall|j: int| 0 <= j < r.len() implies #[trigger] r[j] != t by {
                        if j < cat_from(fs, ws, ' ', 0, n - 1).len() {
                            assert(r[j] == cat_from(fs, ws, ' ', 0, n - 1)[j]);
                        } else {
                            assert(r[j] == fs.last()[j - cat_from(fs, ws, ' ', 0, n - 1).len()]);
                            assert(fs[n - 1][j - cat_from(fs, ws, ' ', 0, n - 1).len()] != t);
                        }
                    }
                    crate::split::lemma_find_tok_from_scan(r, t, r.len() as int);
                },
                None => {
                },
            }
            assert(content_of(r, ct) =~= r);
            assert(comment_of(r, ct) =~= Seq::<char>::empty());
            lemma_split_ws_cat(fs, ws, 0, n - 1, fs.last());
            lemma_split_ws_single_field(fs.last());
            assert(fs.subrange(0, n - 1) + seq![fs.last()] =~= fs);
            assert(line_fields(r, args) == split_ws(content_of(r, ct)));
            assert(split_ws(r) == fs.subrange(0, n - 1) + split_ws(fs.last()));
            assert(line_fields(r, args) == fs);
            assert(render_line(r, args, ws) == cat_padded(fs, ws, ' ', n - 1) + fs.last());
        } else {
            match ct {
                Some(t) => {
                    let body = cat_from(fs, ws, ' ', 0, n);
                    assert(r == cat_padded(fs, ws, ' ', n) + comment);
                    assert(r == body + comment);
                    lemma_split_ws_no_tok(content, t);
                    lemma_cat_from_no_tok(fs, ws, 0, n, t);
                    assert(comment[0] == t);
                    assert forall|j: int| 0 <= j < body.len() implies #[trigger] r[j] != t by {
                        assert(r[j] == body[j]);
                    }
                    assert(r[body.len() as int] == comment[0]);
                    crate::split::lemma_find_tok_from_scan(r, t, body.len() as int);
                    assert(content_of(r, ct) =~= body);
                    assert(comment_of(r, ct) =~= comment);
                    assert(body + Seq::<char>::empty() =~= body);
                    lemma_split_ws_cat(fs, ws, 0, n, Seq::<char>::empty());
                    assert(fs.subrange(0, n) + split_ws(Seq::<char>::empty()) =~= fs);
                    assert(line_fields(r, args) == split_ws(body));
                    assert(line_fields(r, args) == fs);
                    assert(body.len() >= padded_field(fs[0], ws[0], ' ').len());
                    assert(padded_field(fs[0], ws[0], ' ').len() >= fs[0].len());
                    assert(fs[0].len() >= 1);
                    assert(content_of(r, ct).len() > 0);
                    assert(render_line(r, args, ws) == cat_padded(fs, ws, ' ', n) + comment_of(
                        r,
                        ct,
                    ));
                },
                None => {
                    assert(false);
                },
            }
        }
    }
}

/// Splitting on a delimiter distributes over text pieced together around an
/// explicit delimiter.
pub proof fn lemma_split_tok_append(a: Seq<char>, b: Seq<char>, t: char)
    ensures
        split_tok(a + seq![t] + b, t) == split_tok(a, t) + split_tok(b, t),
    decreases a.len(),
{
    let s = a + seq![t] + b;
    if a.len() == 0 {
        assert(s[0] == t);
        assert(s.drop_first() =~= b);
        assert(split_tok(a, t) == seq![a]);
        assert(a =~= Seq::<char>::empty());
        assert(seq![Seq::<char>::empty()] + split_tok(b, t) =~= split_tok(a, t) + split_tok(b, t));
    } else {
        lemma_split_tok_append(a.drop_first(), b, t);
        assert(s[0] == a[0]);
        assert(s.drop_first() =~= a.drop_first() + seq![t] + b);
        lemma_split_tok_fields(a.drop_first(), t);
        let rest_s = split_tok(s.drop_first(), t);
        let rest_a = split_tok(a.drop_first(), t);
        if a[0] == t {
            assert(split_tok(s, t) == seq![Seq::<char>::empty()] + rest_s);
            assert(split_tok(a, t) == seq![Seq::<char>::empty()] + rest_a);
            assert(seq![Seq::<char>::empty()] + (rest_a + split_tok(b, t)) =~= (seq![
                Seq::<char>::empty(),
            ] + rest_a) + split_tok(b, t));
        } else {
            assert(rest_s == rest_a + split_tok(b, t));
            assert(rest_s[0] == rest_a[0]);
            assert(split_tok(s, t) == seq![seq![s[0]] + rest_s[0]] + rest_s.drop_first());
            assert(split_tok(a, t) == seq![seq![a[0]] + rest_a[0]] + rest_a.drop_first());
            assert(rest_s.drop_first() =~= rest_a.drop_first() + split_tok(b, t));
            assert(seq![seq![s[0]] + rest_s[0]] + (rest_a.drop_first() + split_tok(b, t)) =~= (seq![
                seq![a[0]] + rest_a[0],
            ] + rest_a.drop_first()) + split_tok(b, t));
        }
    }
}

/// A rendered line holds no newline when the line itself held none
/// (whitespace mode, space padding).
pub proof fn lemma_render_line_no_newline(line: Seq<char>, args: Args, ws: Seq<int>)
    requires
        args.column_token is None,
        args.padding == ' ',
        forall|j: int| 0 <= j < line.len() ==> line[j] != '\n',
    ensures
        forall|j: int|
            0 <= j < render_line(line, args, ws).len() ==> #[trigger] render_line(
                line,
                args,
                ws,
            )[j] != '\n',
{
    let ct = args.comment_token;
    let content = content_of(line, ct);
    let comment = comment_of(line, ct);
    let fs = line_fields(line, args);
    let r = render_line(line, args, ws);
    lemma_comment_split(line, ct);
    assert forall|j: int| 0 <= j < content.len() implies #[trigger] content[j] != '\n' by {
        assert(content[j] == line[j]);
    }
    assert forall|j: int| 0 <= j < comment.len() implies #[trigger] comment[j] != '\n' by {
        assert(comment[j] == line[j + (line.len() - comment.len())]);
    }
    if content.len() == 0 || fs.len() == 0 {
        assert(r == comment);
    } else {
        let n = fs.len() as int;
        lemma_split_ws_no_tok(content, '\n');
        lemma_cat_padded_is_cat_from(fs, ws, ' ', n);
        lemma_cat_padded_is_cat_from(fs, ws, ' ', n - 1);
        if comment.len() == 0 {
            lemma_cat_from_no_tok(fs, ws, 0, n - 1, '\n');
            let body = cat_from(fs, ws, ' ', 0, n - 1);
            assert(r == body + fs.last());
            assert forall|j: int| 0 <= j < r.len() implies #[trigger] r[j] != '\n' by {
                if j < body.len() {
                    assert(r[j] == body[j]);
                } else {
                    assert(r[j] == fs[n - 1][j - body.len()]);
                }
            }
        } else {
            lemma_cat_from_no_tok(fs, ws, 0, n, '\n');
            let body = cat_from(fs, ws, ' ', 0, n);
            assert(r == body + comment);
            assert forall|j: int| 0 <= j < r.len() implies #[trigger] r[j] != '\n' by {
                if j < body.len() {
                    assert(r[j] == body[j]);
                } else {
                    assert(r[j] == comment[j - body.len()]);
                }
            }
        }
    }
}

/// Splitting the joined rendered lines on newlines gives back exactly the
/// rendered lines, one per input line.
pub proof fn lemma_lines_of_render(ls: Seq<Seq<char>>, args: Args, ws: Seq<int>)
    requires
        ls.len() >= 1,
        args.column_token is None,
        args.padding == ' ',
        forall|i: int, j: int| 0 <= i < ls.len() && 0 <= j < ls[i].len() ==> #[trigger] ls[i][j] != '\n',
    ensures
        lines_of(render_lines(ls, args, ws)) == Seq::new(
            ls.len(),
            |i: int| render_line(ls[i], args, ws),
        ),
    decreases ls.len(),
{
    if ls.len() == 1 {
        let r0 = render_line(ls[0], args, ws);
        lemma_render_line_no_newline(ls[0], args, ws);
        crate::split::lemma_split_tok_none(r0, '\n');
        assert(render_lines(ls, args, ws) == r0);
        assert(Seq::new(ls.len(), |i: int| render_line(ls[i], args, ws)) =~= seq![r0]);
    } else {
        let d = ls.drop_last();
        assert forall|i: int, j: int|
            0 <= i < d.len() && 0 <= j < d[i].len() implies #[trigger] d[i][j] != '\n' by {
            assert(d[i] == ls[i]);
        }
        lemma_lines_of_render(d, args, ws);
        let rl = render_line(ls.last(), args, ws);
        lemma_render_line_no_newline(ls.last(), args, ws);
        crate::split::lemma_split_tok_none(rl, '\n');
        lemma_split_tok_append(render_lines(d, args, ws), rl, '\n');
        assert(lines_of(render_lines(ls, args, ws)) == lines_of(render_lines(d, args, ws)) + seq![
            rl,
        ]);
        assert(Seq::new(ls.len(), |i: int| render_line(ls[i], args, ws)) =~= Seq::new(
            d.len(),
            |i: int| render_line(d[i], args, ws),
        ) + seq![rl]);
    }
}

/// Lines whose fields agree line by line have the same column count and the
/// same raw column widths.
pub proof fn lemma_widths_same_fields(
    ls1: Seq<Seq<char>>,
    ls2: Seq<Seq<char>>,
    args: Args,
    col: int,
)
    requires
        ls1.len() == ls2.len(),
        forall|i: int|
            0 <= i < ls1.len() ==> line_fields(#[trigger] ls1[i], args) == line_fields(
                ls2[i],
                args,
            ),
    ensures
        col_width_raw(ls1, args, col) == col_width_raw(ls2, args, col),
        num_columns(ls1, args) == num_columns(ls2, args),
    decreases ls1.len(),
{
    if ls1.len() > 0 {
        assert forall|i: int| 0 <= i < ls1.drop_last().len() implies line_fields(
            #[trigger] ls1.drop_last()[i],
            args,
        ) == line_fields(ls2.drop_last()[i], args) by {
            assert(ls1.drop_last()[i] == ls1[i]);
            assert(ls2.drop_last()[i] == ls2[i]);
        }
        lemma_widths_same_fields(ls1.drop_last(), ls2.drop_last(), args, col);
        assert(line_fields(ls1[ls1.len() - 1], args) == line_fields(ls2[ls2.len() - 1], args));
    }
}

/// Rendering line sequences whose lines render equally gives equal text.
pub proof fn lemma_render_lines_pointwise(
    ls1: Seq<Seq<char>>,
    ls2: Seq<Seq<char>>,
    args: Args,
    ws: Seq<int>,
)
    requires
        ls1.len() == ls2.len(),
        forall|i: int|
            0 <= i < ls1.len() ==> render_line(#[trigger] ls1[i], args, ws) == render_line(
                ls2[i],
                args,
                ws,
            ),
    ensures
        render_lines(ls1, args, ws) == render_lines(ls2, args, ws),
    decreases ls1.len(),
{
    if ls1.len() > 1 {
        assert forall|i: int| 0 <= i < ls1.drop_last().len() implies render_line(
            #[trigger] ls1.drop_last()[i],
            args,
            ws,
        ) == render_line(ls2.drop_last()[i], args, ws) by {
            assert(ls1.drop_last()[i] == ls1[i]);
            assert(ls2.drop_last()[i] == ls2[i]);
        }
        lemma_render_lines_pointwise(ls1.drop_last(), ls2.drop_last(), args, ws);
        assert(render_line(ls1[ls1.len() - 1], args, ws) == render_line(
            ls2[ls2.len() - 1],
            args,
            ws,
        ));
    } else if ls1.len() == 1 {
        assert(render_line(ls1[0], args, ws) == render_line(ls2[0], args, ws));
    }
}

/// Idempotence in whitespace mode: with whitespace-run splitting, a space as
/// padding, a positive extra width and a comment token other than the space,
/// rendering the renderer's own output under the same configuration
/// reproduces that output unchanged.
pub proof fn lemma_idempotent_whitespace_mode(text: Seq<char>, args: Args)
    requires
        args.column_token is None,
        args.padding == ' ',
        args.width >= 1,
        args.comment_token != Some(' '),
    ensures
        retable_spec(retable_spec(text, args), args) == retable_spec(text, args),
{
    let ls = lines_of(text);
    let ws = table_widths(text, args);
    let out = retable_spec(text, args);
    lemma_split_tok_fields(text, '\n');
    assert(ls.len() >= 1);
    assert forall|i: int, j: int|
        0 <= i < ls.len() && 0 <= j < line_fields(ls[i], args).len() implies #[trigger] ws[j]
        >= str_width(line_fields(#[trigger] ls[i], args)[j]) + 1 by {
        crate::table::lemma_field_count_le(ls, args, i);
        lemma_col_width_ge(ls, args, i, j);
        assert(ws[j] == args.width + col_width_raw(ls, args, j));
        assert(line_field_width(ls[i], args, j) == str_width(line_fields(ls[i], args)[j]));
    }
    assert forall|i: int| 0 <= i < ls.len() implies line_fields(#[trigger] ls[i], args).len()
        <= ws.len() by {
        crate::table::lemma_field_count_le(ls, args, i);
    }
    let rls = Seq::new(ls.len(), |i: int| render_line(ls[i], args, ws));
    lemma_lines_of_render(ls, args, ws);
    assert(lines_of(out) == rls);
    assert forall|i: int| 0 <= i < rls.len() implies line_fields(#[trigger] rls[i], args)
        == line_fields(ls[i], args) && render_line(rls[i], args, ws) == render_line(
        ls[i],
        args,
        ws,
    ) by {
        lemma_render_line_reparse(ls[i], args, ws);
    }
    assert(num_columns(rls, args) == num_columns(ls, args)) by {
        lemma_widths_same_fields(rls, ls, args, 0);
    }
    assert(table_widths(out, args) =~= ws) by {
        assert forall|c: int| 0 <= c < ws.len() implies table_widths(out, args)[c] == ws[c] by {
            lemma_widths_same_fields(rls, ls, args, c);
        }
    }
    lemma_render_lines_pointwise(rls, ls, args, ws);
    assert(retable_spec(out, args) == render_lines(rls, args, ws));
    assert(render_lines(ls, args, ws) == out);
}

/// Empty input renders to empty output.
pub proof fn lemma_empty_input(args: Args)
    ensures
        retable_spec(Seq::<char>::empty(), args) == Seq::<char>::empty(),
{
    let text = Seq::<char>::empty();
    let ls = lines_of(text);
    assert(ls == seq![text]);
    lemma_comment_split(text, args.comment_token);
    assert(content_of(text, args.comment_token).len() == 0);
    assert(comment_of(text, args.comment_token) =~= Seq::<char>::empty());
    assert(render_line(text, args, table_widths(text, args)) =~= Seq::<char>::empty());
    assert(ls[0] == text);
}

} // verus!
