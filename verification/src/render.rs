use vstd::prelude::*;

use crate::config::Args;
use crate::split::comment_of;
use crate::split::content_of;
use crate::split::lemma_comment_split;
use crate::split::lemma_fields_of_len;
use crate::split::lemma_split_tok_fields;
use crate::split::seq_views;
use crate::split::split_by;
use crate::split::split_comment;
use crate::table::calculate_field_sizes;
use crate::table::col_width_raw;
use crate::table::lemma_field_count_le;
use crate::table::line_fields;
use crate::table::lines_of;
use crate::table::num_columns;
use crate::width::display_width;
use crate::width::str_width;

verus! {

/// `n` copies of the padding character; empty when `n` is not positive.
pub open spec fn pad_seq(n: int, pad: char) -> Seq<char> {
    if n <= 0 {
        Seq::<char>::empty()
    } else {
        Seq::new(n as nat, |i: int| pad)
    }
}

/// A field followed by padding up to the column width `target`; no padding
/// when the field is at least that wide.
pub open spec fn padded_field(f: Seq<char>, target: int, pad: char) -> Seq<char> {
    f + pad_seq(target - str_width(f), pad)
}

/// The first `n` fields, each padded to its column's width, concatenated.
pub open spec fn cat_padded(fs: Seq<Seq<char>>, ws: Seq<int>, pad: char, n: int) -> Seq<char>
    decreases n,
{
    if n <= 0 {
        Seq::<char>::empty()
    } else {
        cat_padded(fs, ws, pad, n - 1) + padded_field(fs[n - 1], ws[n - 1], pad)
    }
}

/// One rendered line. A line whose content is empty, or has no fields, is
/// its comment (possibly empty) verbatim. Otherwise every field but the last
/// is padded to its column's width; the last field is padded only when a
/// comment follows it, so that rows without comments end ragged and comments
/// stand at a fixed offset.
pub open spec fn render_line(line: Seq<char>, args: Args, ws: Seq<int>) -> Seq<char> {
    let content = content_of(line, args.comment_token);
    let comment = comment_of(line, args.comment_token);
    if content.len() == 0 {
        comment
    } else {
        let fs = line_fields(line, args);
        if fs.len() == 0 {
            comment
        } else if comment.len() == 0 {
            cat_padded(fs, ws, args.padding, fs.len() - 1) + fs.last()
        } else {
            cat_padded(fs, ws, args.padding, fs.len() as int) + comment
        }
    }
}

/// All rendered lines, joined with single newline characters.
pub open spec fn render_lines(lines: Seq<Seq<char>>, args: Args, ws: Seq<int>) -> Seq<char>
    decreases lines.len(),
{
    if lines.len() == 0 {
        Seq::<char>::empty()
    } else if lines.len() == 1 {
        render_line(lines[0], args, ws)
    } else {
        render_lines(lines.drop_last(), args, ws) + seq!['\n'] + render_line(
            lines.last(),
            args,
            ws,
        )
    }
}

/// The column width table of `text` as a mathematical sequence.
pub open spec fn table_widths(text: Seq<char>, args: Args) -> Seq<int> {
    Seq::new(
        num_columns(lines_of(text), args),
        |c: int| args.width + col_width_raw(lines_of(text), args, c),
    )
}

/// The whole transformation: every line of `text` rendered against the width
/// table computed from `text` itself, joined with newlines.
pub open spec fn retable_spec(text: Seq<char>, args: Args) -> Seq<char> {
    render_lines(lines_of(text), args, table_widths(text, args))
}

/// A width table held in a vector, seen as a sequence of integers.
pub open spec fn widths_of(sizes: Seq<usize>) -> Seq<int> {
    Seq::new(sizes.len(), |i: int| sizes[i] as int)
}

/// Appends a copy of `piece` to `out`.
fn append_chars(out: &mut Vec<char>, piece: &Vec<char>)
    ensures
        final (out)@ == old(out)@ + piece@,
{
    let mut i: usize = 0;
    proof {
        assert(out@ =~= old(out)@ + piece@.take(0));
    }
    while i < piece.len()
        invariant
            i <= piece@.len(),
            out@ == old(out)@ + piece@.take(i as int),
        decreases piece@.len() - i,
    {
        out.push(piece[i]);
        proof {
            assert(old(out)@ + piece@.take(i + 1) =~= (old(out)@ + piece@.take(i as int)).push(
                piece@[i as int],
            ));
        }
        i = i + 1;
    }
    proof {
        assert(piece@.take(piece@.len() as int) =~= piece@);
    }
}

/// Appends `field` and then padding characters up to the column width
/// `target`; none when the field is already that wide.
fn append_padded(out: &mut Vec<char>, field: &Vec<char>, target: usize, pad: char)
    requires
        3 * field@.len() <= usize::MAX,
    ensures
        final (out)@ == old(out)@ + padded_field(field@, target as int, pad),
{
    append_chars(out, field);
    let w = display_width(field);
    let mut k: usize = w;
    proof {
        assert(out@ =~= old(out)@ + field@ + pad_seq(0, pad));
    }
    while k < target
        invariant
            w <= k,
            k > w ==> k <= target,
            out@ == old(out)@ + field@ + pad_seq(k - w, pad),
        decreases target - k,
    {
        out.push(pad);
        proof {
            assert(pad_seq(k + 1 - w, pad) =~= pad_seq(k - w, pad).push(pad));
            assert((old(out)@ + field@ + pad_seq(k - w, pad)).push(pad) =~= old(out)@ + field@
                + pad_seq(k + 1 - w, pad));
        }
        k = k + 1;
    }
    proof {
        assert(w == str_width(field@));
        assert(pad_seq(k - w, pad) =~= pad_seq(target - str_width(field@), pad));
        assert(old(out)@ + field@ + pad_seq(k - w, pad) =~= old(out)@ + padded_field(
            field@,
            target as int,
            pad,
        ));
    }
}

/// Renders one line against the width table and appends it to `out`.
fn render_line_exec(line: &Vec<char>, args: &Args, sizes: &Vec<usize>, out: &mut Vec<char>)
    requires
        3 * line@.len() <= usize::MAX,
        line_fields(line@, *args).len() <= sizes@.len(),
    ensures
        final (out)@ == old(out)@ + render_line(line@, *args, widths_of(sizes@)),
{
    let ghost ws = widths_of(sizes@);
    let (content, comment) = split_comment(line, &args.comment_token);
    proof {
        lemma_comment_split(line@, args.comment_token);
        lemma_fields_of_len(content@, args.column_token);
    }
    if content.len() == 0 {
        append_chars(out, &comment);
    } else {
        let fields = split_by(&content, &args.column_token);
        let ghost fs = line_fields(line@, *args);
        proof {
            assert(content_of(line@, args.comment_token).len() > 0);
            assert(fs == crate::split::fields_of(content@, args.column_token));
            assert(seq_views(fields@) == fs);
        }
        if fields.len() == 0 {
            append_chars(out, &comment);
        } else {
            let n = fields.len();
            let ghost base = out@;
            let mut fi: usize = 0;
            proof {
                assert(out@ =~= base + cat_padded(fs, ws, args.padding, 0));
            }
            while fi < n - 1
                invariant
                    fi <= n - 1,
                    n == fs.len(),
                    n <= sizes@.len(),
                    n == fields@.len(),
                    seq_views(fields@) == fs,
                    ws == widths_of(sizes@),
                    3 * line@.len() <= usize::MAX,
                    forall|k: int| 0 <= k < fs.len() ==> (#[trigger] fs[k]).len() <= line@.len(),
                    out@ == base + cat_padded(fs, ws, args.padding, fi as int),
                decreases n - 1 - fi,
            {
                proof {
                    assert(fields@[fi as int]@ == fs[fi as int]);
                    assert(fs[fi as int].len() <= line@.len());
                }
                append_padded(out, &fields[fi], sizes[fi], args.padding);
                proof {
                    assert(ws[fi as int] == sizes@[fi as int] as int);
                    assert(base + cat_padded(fs, ws, args.padding, fi as int) + padded_field(
                        fs[fi as int],
                        ws[fi as int],
                        args.padding,
                    ) =~= base + cat_padded(fs, ws, args.padding, fi + 1));
                }
                fi = fi + 1;
            }
            proof {
                assert(fields@[n - 1]@ == fs[n - 1]);
                assert(fs[n - 1].len() <= line@.len());
            }
            if comment.len() > 0 {
                append_padded(out, &fields[n - 1], sizes[n - 1], args.padding);
                proof {
                    assert(ws[n - 1] == sizes@[n - 1] as int);
                    assert(base + cat_padded(fs, ws, args.padding, n - 1) + padded_field(
                        fs[n - 1],
                        ws[n - 1],
                        args.padding,
                    ) =~= base + cat_padded(fs, ws, args.padding, n as int));
                }
                append_chars(out, &comment);
                proof {
                    assert(base + cat_padded(fs, ws, args.padding, n as int) + comment@ =~= base
                        + (cat_padded(fs, ws, args.padding, n as int) + comment@));
                    assert(render_line(line@, *args, ws) == cat_padded(
                        fs,
                        ws,
                        args.padding,
                        n as int,
                    ) + comment@);
                }
            } else {
                append_chars(out, &fields[n - 1]);
                proof {
                    assert(comment@ =~= Seq::<char>::empty());
                    assert(fs.last() == fs[n - 1]);
                    assert(base + cat_padded(fs, ws, args.padding, n - 1) + fs[n - 1] =~= base + (
                    cat_padded(fs, ws, args.padding, n - 1) + fs.last()));
                    assert(render_line(line@, *args, ws) == cat_padded(fs, ws, args.padding, n - 1)
                        + fs.last());
                }
            }
        }
    }
}

/// Re-renders `text` so that its columns align: computes the width table,
/// then renders every line against it. The output has exactly the input's
/// lines, joined with single newlines; no trailing newline is added or
/// removed.
///
/// The bound in the requires only keeps the column widths within machine
/// range.
pub fn retable(text: &Vec<char>, args: &Args) -> (out: Vec<char>)
    requires
        3 * text@.len() + args.width <= usize::MAX,
    ensures
        out@ == retable_spec(text@, *args),
{
    let sizes = calculate_field_sizes(text, args);
    let nl: Option<char> = Some('\n');
    let lines = split_by(text, &nl);
    let ghost ls = lines_of(text@);
    let ghost ws = table_widths(text@, *args);
    proof {
        assert(widths_of(sizes@) =~= ws);
        lemma_split_tok_fields(text@, '\n');
    }
    let mut out: Vec<char> = Vec::new();
    let mut li: usize = 0;
    proof {
        assert(ls.take(0) =~= Seq::<Seq<char>>::empty());
    }
    while li < lines.len()
        invariant
            seq_views(lines@) == ls,
            ls == lines_of(text@),
            ws == table_widths(text@, *args),
            widths_of(sizes@) == ws,
            sizes@.len() == num_columns(ls, *args),
            li <= lines@.len(),
            3 * text@.len() + args.width <= usize::MAX,
            forall|k: int| 0 <= k < ls.len() ==> (#[trigger] ls[k]).len() <= text@.len(),
            out@ == render_lines(ls.take(li as int), *args, ws),
        decreases lines@.len() - li,
    {
        let ghost prev = out@;
        if li > 0 {
            out.push('\n');
        }
        proof {
            assert(lines@[li as int]@ == ls[li as int]);
            lemma_field_count_le(ls, *args, li as int);
            assert(ls[li as int].len() <= text@.len());
        }
        render_line_exec(&lines[li], args, &sizes, &mut out);
        proof {
            assert(ls.take(li + 1).drop_last() =~= ls.take(li as int));
            assert(ls.take(li + 1).last() == ls[li as int]);
            if li == 0 {
                assert(out@ =~= render_line(ls[0], *args, ws));
                assert(ls.take(1)[0] == ls[0]);
            } else {
                assert(out@ =~= render_lines(ls.take(li as int), *args, ws) + seq!['\n']
                    + render_line(ls[li as int], *args, ws));
            }
        }
        li = li + 1;
    }
    proof {
        assert(ls.take(ls.len() as int) =~= ls);
    }
    out
}

} // verus!
