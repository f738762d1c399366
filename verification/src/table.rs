use vstd::prelude::*;

use crate::config::Args;
use crate::split::content_of;
use crate::split::fields_of;
use crate::split::lemma_comment_split;
use crate::split::lemma_fields_of_len;
use crate::split::lemma_split_tok_fields;
use crate::split::seq_views;
use crate::split::split_by;
use crate::split::split_comment;
use crate::split::split_tok;
use crate::width::display_width;
use crate::width::str_width;

verus! {

/// The larger of two naturals.
pub open spec fn nat_max(a: nat, b: nat) -> nat {
    if a >= b {
        a
    } else {
        b
    }
}

/// The lines of the input text: split on every newline character, with no
/// special handling of carriage returns. Empty text is one empty line.
pub open spec fn lines_of(text: Seq<char>) -> Seq<Seq<char>> {
    split_tok(text, '\n')
}

/// The fields of one line: its content (the part before any comment) split
/// under the configured delimiter policy. A comment-only or blank line — one
/// whose content is empty — has no fields, so it contributes nothing to the
/// width table; in particular it does not count as one empty field under a
/// literal delimiter.
pub open spec fn line_fields(line: Seq<char>, args: Args) -> Seq<Seq<char>> {
    let content = content_of(line, args.comment_token);
    if content.len() == 0 {
        Seq::<Seq<char>>::empty()
    } else {
        fields_of(content, args.column_token)
    }
}

/// Display width of the field at `col` on `line`, or zero when the line has
/// no such column.
pub open spec fn line_field_width(line: Seq<char>, args: Args, col: int) -> nat {
    if 0 <= col < line_fields(line, args).len() {
        str_width(line_fields(line, args)[col])
    } else {
        0
    }
}

/// The widest field at `col` over all lines, before extra width is added.
pub open spec fn col_width_raw(lines: Seq<Seq<char>>, args: Args, col: int) -> nat
    decreases lines.len(),
{
    if lines.len() == 0 {
        0
    } else {
        nat_max(
            col_width_raw(lines.drop_last(), args, col),
            line_field_width(lines.last(), args, col),
        )
    }
}

/// The number of columns: the largest field count over all lines.
pub open spec fn num_columns(lines: Seq<Seq<char>>, args: Args) -> nat
    decreases lines.len(),
{
    if lines.len() == 0 {
        0
    } else {
        nat_max(num_columns(lines.drop_last(), args), line_fields(lines.last(), args).len())
    }
}

/// No line has more fields than there are columns.
pub proof fn lemma_field_count_le(lines: Seq<Seq<char>>, args: Args, i: int)
    requires
        0 <= i < lines.len(),
    ensures
        line_fields(lines[i], args).len() <= num_columns(lines, args),
    decreases lines.len(),
{
    if i < lines.len() - 1 {
        lemma_field_count_le(lines.drop_last(), args, i);
        assert(lines.drop_last()[i] == lines[i]);
    }
}

/// The raw column width is at least the width of every field in that column.
pub proof fn lemma_col_width_ge(lines: Seq<Seq<char>>, args: Args, i: int, col: int)
    requires
        0 <= i < lines.len(),
    ensures
        col_width_raw(lines, args, col) >= line_field_width(lines[i], args, col),
    decreases lines.len(),
{
    if i < lines.len() - 1 {
        lemma_col_width_ge(lines.drop_last(), args, i, col);
        assert(lines.drop_last()[i] == lines[i]);
    }
}

/// Beyond the last column the raw width is zero.
pub proof fn lemma_col_width_beyond(lines: Seq<Seq<char>>, args: Args, col: int)
    requires
        col >= num_columns(lines, args),
    ensures
        col_width_raw(lines, args, col) == 0,
    decreases lines.len(),
{
    if lines.len() > 0 {
        lemma_col_width_beyond(lines.drop_last(), args, col);
    }
}

/// Computes the column width table of `text`: one entry per column, the
/// width of the widest field seen at that index over all lines, plus the
/// configured extra width. Comment suffixes contribute nothing, and
/// comment-only or blank lines are skipped whole.
///
/// The bound in the requires only keeps the widths within machine range: a
/// field's display width is at most three times its character count.
pub fn calculate_field_sizes(text: &Vec<char>, args: &Args) -> (sizes: Vec<usize>)
    requires
        3 * text@.len() + args.width <= usize::MAX,
    ensures
        sizes@.len() == num_columns(lines_of(text@), *args),
        forall|c: int|
            0 <= c < sizes@.len() ==> sizes@[c] == args.width + col_width_raw(
                lines_of(text@),
                *args,
                c,
            ),
{
    let nl: Option<char> = Some('\n');
    let lines = split_by(text, &nl);
    let ghost ls = lines_of(text@);
    proof {
        lemma_split_tok_fields(text@, '\n');
    }
    let mut sizes: Vec<usize> = Vec::new();
    let mut li: usize = 0;
    proof {
        assert(ls.take(0) =~= Seq::<Seq<char>>::empty());
    }
    while li < lines.len()
        invariant
            seq_views(lines@) == ls,
            ls == lines_of(text@),
            3 * text@.len() + args.width <= usize::MAX,
            forall|k: int| 0 <= k < ls.len() ==> (#[trigger] ls[k]).len() <= text@.len(),
            li <= lines@.len(),
            sizes@.len() == num_columns(ls.take(li as int), *args),
            forall|c: int|
                0 <= c < sizes@.len() ==> sizes@[c] == col_width_raw(ls.take(li as int), *args, c),
            forall|c: int| 0 <= c < sizes@.len() ==> sizes@[c] <= 3 * text@.len(),
        decreases lines@.len() - li,
    {
        let ghost old_sizes = sizes@;
        let ghost lpre = ls.take(li as int);
        proof {
            assert(lines@[li as int]@ == ls[li as int]);
        }
        let (content, _comment) = split_comment(&lines[li], &args.comment_token);
        let ghost fs = line_fields(ls[li as int], *args);
        proof {
            lemma_comment_split(ls[li as int], args.comment_token);
            assert(content@ == content_of(ls[li as int], args.comment_token));
        }
        if content.len() > 0 {
            let fields = split_by(&content, &args.column_token);
            proof {
                lemma_fields_of_len(content@, args.column_token);
                assert(fs == fields_of(content@, args.column_token));
                assert forall|k: int| 0 <= k < fs.len() implies (#[trigger] fs[k]).len()
                    <= text@.len() by {
                    assert(fs[k].len() <= content@.len());
                    assert(ls[li as int].len() <= text@.len());
                }
            }
            let mut fi: usize = 0;
            while fi < fields.len()
                invariant
                    seq_views(fields@) == fs,
                    forall|k: int| 0 <= k < fs.len() ==> (#[trigger] fs[k]).len() <= text@.len(),
                    3 * text@.len() + args.width <= usize::MAX,
                    fi <= fields@.len(),
                    sizes@.len() == nat_max(num_columns(lpre, *args), fi as nat),
                    forall|c: int|
                        0 <= c < sizes@.len() ==> sizes@[c] == (if c < fi {
                            nat_max(col_width_raw(lpre, *args, c), str_width(fs[c]))
                        } else {
                            col_width_raw(lpre, *args, c)
                        }),
                    forall|c: int| 0 <= c < sizes@.len() ==> sizes@[c] <= 3 * text@.len(),
                decreases fields@.len() - fi,
            {
                if fi >= sizes.len() {
                    proof {
                        lemma_col_width_beyond(lpre, *args, fi as int);
                    }
                    sizes.push(0);
                }
                proof {
                    assert(fields@[fi as int]@ == fs[fi as int]);
                    assert(fs[fi as int].len() <= text@.len());
                }
                let w = display_width(&fields[fi]);
                if sizes[fi] < w {
                    sizes.set(fi, w);
                }
                fi = fi + 1;
            }
        } else {
            proof {
                assert(fs =~= Seq::<Seq<char>>::empty());
                assert(sizes@.len() == nat_max(num_columns(lpre, *args), fs.len()));
            }
        }
        proof {
            assert(ls.take(li + 1).drop_last() =~= lpre);
            assert(ls.take(li + 1).last() == ls[li as int]);
            assert(num_columns(ls.take(li + 1), *args) == nat_max(
                num_columns(lpre, *args),
                fs.len(),
            ));
            assert forall|c: int| 0 <= c < sizes@.len() implies sizes@[c] == col_width_raw(
                ls.take(li + 1),
                *args,
                c,
            ) by {
                assert(col_width_raw(ls.take(li + 1), *args, c) == nat_max(
                    col_width_raw(lpre, *args, c),
                    line_field_width(ls[li as int], *args, c),
                ));
            }
        }
        li = li + 1;
    }
    proof {
        assert(ls.take(ls.len() as int) =~= ls);
    }
    let mut ci: usize = 0;
    while ci < sizes.len()
        invariant
            3 * text@.len() + args.width <= usize::MAX,
            ci <= sizes@.len(),
            sizes@.len() == num_columns(lines_of(text@), *args),
            forall|c: int|
                0 <= c < ci ==> sizes@[c] == args.width + col_width_raw(lines_of(text@), *args, c),
            forall|c: int|
                ci <= c < sizes@.len() ==> sizes@[c] == col_width_raw(lines_of(text@), *args, c)
                    && sizes@[c] <= 3 * text@.len(),
        decreases sizes@.len() - ci,
    {
        let v = sizes[ci];
        sizes.set(ci, v + args.width);
        ci = ci + 1;
    }
    sizes
}

} // verus!
