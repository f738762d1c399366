use vstd::prelude::*;

verus! {

/// A character with the Unicode `White_Space` property.
pub open spec fn is_ws(c: char) -> bool {
    let u: u32 = c as u32;
    u == 0x09 || u == 0x0A || u == 0x0B || u == 0x0C || u == 0x0D || u == 0x20 || u == 0x85
        || u == 0xA0 || u == 0x1680 || (0x2000 <= u && u <= 0x200A) || u == 0x2028 || u == 0x2029
        || u == 0x202F || u == 0x205F || u == 0x3000
}

/// Runtime test for [`is_ws`].
pub fn is_ws_char(c: char) -> (r: bool)
    ensures
        r == is_ws(c),
{
    let u: u32 = c as u32;
    u == 0x09 || u == 0x0A || u == 0x0B || u == 0x0C || u == 0x0D || u == 0x20 || u == 0x85
        || u == 0xA0 || u == 0x1680 || (0x2000 <= u && u <= 0x200A) || u == 0x2028 || u == 0x2029
        || u == 0x202F || u == 0x205F || u == 0x3000
}

/// Index of the first occurrence of `t` in `s`, or `s.len()` when `t` does
/// not occur.
pub open spec fn find_tok(s: Seq<char>, t: char) -> int
    decreases s.len(),
{
    if s.len() == 0 {
        0
    } else if s[0] == t {
        0
    } else {
        1 + find_tok(s.drop_first(), t)
    }
}

/// `find_tok` returns the position of the first occurrence, or the length.
pub proof fn lemma_find_tok(s: Seq<char>, t: char)
    ensures
        0 <= find_tok(s, t) <= s.len(),
        find_tok(s, t) < s.len() ==> s[find_tok(s, t)] == t,
        forall|j: int| 0 <= j < find_tok(s, t) ==> s[j] != t,
    decreases s.len(),
{
    if s.len() == 0 {
    } else if s[0] == t {
    } else {
        lemma_find_tok(s.drop_first(), t);
        assert forall|j: int| 0 <= j < find_tok(s, t) implies s[j] != t by {
            if j > 0 {
                assert(s.drop_first()[j - 1] == s[j]);
            }
        }
    }
}

/// A scan that saw no `t` before `idx`, and `t` at `idx` unless `idx` is the
/// length, pins down `find_tok`.
pub proof fn lemma_find_tok_from_scan(s: Seq<char>, t: char, idx: int)
    requires
        0 <= idx <= s.len(),
        forall|j: int| 0 <= j < idx ==> s[j] != t,
        idx < s.len() ==> s[idx] == t,
    ensures
        find_tok(s, t) == idx,
    decreases s.len(),
{
    if s.len() == 0 {
    } else if idx == 0 {
    } else {
        assert(s[0] != t);
        lemma_find_tok_from_scan(s.drop_first(), t, idx - 1);
    }
}

/// Fields of `s` split on every occurrence of the delimiter `t`; empty fields
/// between consecutive delimiters are kept, so the result always holds one
/// more field than `s` holds delimiters.
pub open spec fn split_tok(s: Seq<char>, t: char) -> Seq<Seq<char>>
    decreases s.len(),
{
    if s.len() == 0 {
        seq![s]
    } else if s[0] == t {
        seq![Seq::<char>::empty()] + split_tok(s.drop_first(), t)
    } else {
        let rest = split_tok(s.drop_first(), t);
        seq![seq![s[0]] + rest[0]] + rest.drop_first()
    }
}

/// Splitting always yields at least one field, none longer than the input,
/// and no field contains the delimiter.
pub proof fn lemma_split_tok_fields(s: Seq<char>, t: char)
    ensures
        split_tok(s, t).len() >= 1,
        forall|k: int|
            0 <= k < split_tok(s, t).len() ==> (#[trigger] split_tok(s, t)[k]).len() <= s.len(),
        forall|k: int, j: int|
            0 <= k < split_tok(s, t).len() && 0 <= j < split_tok(s, t)[k].len()
                ==> #[trigger] split_tok(s, t)[k][j] != t,
    decreases s.len(),
{
    if s.len() == 0 {
    } else if s[0] == t {
        lemma_split_tok_fields(s.drop_first(), t);
    } else {
        lemma_split_tok_fields(s.drop_first(), t);
        let rest = split_tok(s.drop_first(), t);
        assert(forall|k: int|
            0 <= k < split_tok(s, t).len() ==> (#[trigger] split_tok(s, t)[k]).len() <= s.len())
            by {
            assert(split_tok(s, t)[0] == seq![s[0]] + rest[0]);
            assert(forall|k: int|
                1 <= k < split_tok(s, t).len() ==> split_tok(s, t)[k] == rest[k]);
        }
    }
}

/// When the first delimiter stands at `j`, the first field is `s.take(j)` and
/// the rest is the split of what follows the delimiter.
pub proof fn lemma_split_tok_step(s: Seq<char>, t: char, j: int)
    requires
        0 <= j < s.len(),
        s[j] == t,
        forall|i: int| 0 <= i < j ==> s[i] != t,
    ensures
        split_tok(s, t) == seq![s.take(j)] + split_tok(s.skip(j + 1), t),
    decreases j,
{
    if j == 0 {
        assert(s.take(0) =~= Seq::<char>::empty());
        assert(s.skip(1) =~= s.drop_first());
        assert(split_tok(s, t) =~= seq![s.take(0)] + split_tok(s.skip(1), t));
    } else {
        assert(s[0] != t);
        let d = s.drop_first();
        lemma_split_tok_step(d, t, j - 1);
        lemma_split_tok_fields(d.skip(j), t);
        let rest = split_tok(d, t);
        assert(rest == seq![d.take(j - 1)] + split_tok(d.skip(j), t));
        assert(rest[0] == d.take(j - 1));
        assert(seq![s[0]] + d.take(j - 1) =~= s.take(j));
        assert(rest.drop_first() =~= split_tok(d.skip(j), t));
        assert(d.skip(j) =~= s.skip(j + 1));
        assert(split_tok(s, t) =~= seq![s.take(j)] + split_tok(s.skip(j + 1), t));
    }
}

/// When the delimiter does not occur, the whole input is the single field.
pub proof fn lemma_split_tok_none(s: Seq<char>, t: char)
    requires
        forall|i: int| 0 <= i < s.len() ==> s[i] != t,
    ensures
        split_tok(s, t) == seq![s],
    decreases s.len(),
{
    if s.len() == 0 {
    } else {
        let d = s.drop_first();
        lemma_split_tok_none(d, t);
        let rest = split_tok(d, t);
        assert(rest == seq![d]);
        assert(rest[0] == d);
        assert(seq![s[0]] + d =~= s);
        assert(rest.drop_first() =~= Seq::<Seq<char>>::empty());
        assert(split_tok(s, t) =~= seq![s]);
    }
}

/// Fields of `s` split on maximal runs of whitespace; runs at the line
/// boundaries are discarded, so no field is empty and no field contains a
/// whitespace character.
pub open spec fn split_ws(s: Seq<char>) -> Seq<Seq<char>>
    decreases s.len(),
{
    if s.len() == 0 {
        Seq::<Seq<char>>::empty()
    } else {
        let rest = split_ws(s.drop_first());
        if is_ws(s[0]) {
            rest
        } else if s.len() >= 2 && !is_ws(s[1]) {
            seq![seq![s[0]] + rest[0]] + rest.drop_first()
        } else {
            seq![seq![s[0]]] + rest
        }
    }
}

/// Whitespace splitting yields only nonempty fields made of non-whitespace
/// characters, none longer than the input.
pub proof fn lemma_split_ws_fields(s: Seq<char>)
    ensures
        forall|k: int|
            0 <= k < split_ws(s).len() ==> 1 <= (#[trigger] split_ws(s)[k]).len() <= s.len(),
        forall|k: int, j: int|
            0 <= k < split_ws(s).len() && 0 <= j < split_ws(s)[k].len()
                ==> !is_ws(#[trigger] split_ws(s)[k][j]),
    decreases s.len(),
{
    if s.len() == 0 {
    } else {
        lemma_split_ws_fields(s.drop_first());
        let rest = split_ws(s.drop_first());
        if is_ws(s[0]) {
        } else if s.len() >= 2 && !is_ws(s[1]) {
            assert(s.drop_first().len() >= 1);
            assert(split_ws(s)[0] == seq![s[0]] + rest[0]);
            assert(forall|k: int| 1 <= k < split_ws(s).len() ==> split_ws(s)[k] == rest[k]);
        } else {
            assert(split_ws(s)[0] == seq![s[0]]);
            assert(forall|k: int| 1 <= k < split_ws(s).len() ==> split_ws(s)[k] == rest[k - 1]);
        }
    }
}

/// A character that does not occur in the input occurs in no field of its
/// whitespace split.
pub proof fn lemma_split_ws_no_tok(s: Seq<char>, t: char)
    requires
        forall|i: int| 0 <= i < s.len() ==> s[i] != t,
    ensures
        forall|k: int, j: int|
            0 <= k < split_ws(s).len() && 0 <= j < split_ws(s)[k].len()
                ==> #[trigger] split_ws(s)[k][j] != t,
    decreases s.len(),
{
    if s.len() > 0 {
        assert(forall|i: int| 0 <= i < s.drop_first().len() ==> s.drop_first()[i] != t);
        lemma_split_ws_no_tok(s.drop_first(), t);
        lemma_split_ws_fields(s.drop_first());
        let rest = split_ws(s.drop_first());
        if is_ws(s[0]) {
        } else if s.len() >= 2 && !is_ws(s[1]) {
            assert(split_ws(s)[0] == seq![s[0]] + rest[0]);
            assert(forall|k: int| 1 <= k < split_ws(s).len() ==> split_ws(s)[k] == rest[k]);
        } else {
            assert(split_ws(s)[0] == seq![s[0]]);
            assert(forall|k: int| 1 <= k < split_ws(s).len() ==> split_ws(s)[k] == rest[k - 1]);
        }
    }
}

/// A maximal non-whitespace run `s.take(j)` at the front is the first field,
/// and the rest of the split starts right after it.
pub proof fn lemma_split_ws_run(s: Seq<char>, j: int)
    requires
        1 <= j <= s.len(),
        forall|i: int| 0 <= i < j ==> !is_ws(s[i]),
        j < s.len() ==> is_ws(s[j]),
    ensures
        split_ws(s) == seq![s.take(j)] + split_ws(s.skip(j)),
    decreases j,
{
    let d = s.drop_first();
    if j == 1 {
        assert(s.skip(1) =~= d);
        if s.len() == 1 {
            assert(s.take(1) =~= seq![s[0]]);
            assert(split_ws(s) =~= seq![s.take(1)] + split_ws(s.skip(1)));
        } else {
            assert(is_ws(s[1]));
            assert(s.take(1) =~= seq![s[0]]);
            assert(split_ws(s) =~= seq![s.take(1)] + split_ws(s.skip(1)));
        }
    } else {
        assert(!is_ws(s[1]));
        lemma_split_ws_run(d, j - 1);
        let rest = split_ws(d);
        assert(rest == seq![d.take(j - 1)] + split_ws(d.skip(j - 1)));
        assert(rest[0] == d.take(j - 1));
        assert(seq![s[0]] + d.take(j - 1) =~= s.take(j));
        assert(rest.drop_first() =~= split_ws(d.skip(j - 1)));
        assert(d.skip(j - 1) =~= s.skip(j));
        assert(split_ws(s) =~= seq![s.take(j)] + split_ws(s.skip(j)));
    }
}

/// Fields of a line's content under the configured delimiter policy: split on
/// a literal delimiter when one is set, on whitespace runs otherwise.
pub open spec fn fields_of(content: Seq<char>, token: Option<char>) -> Seq<Seq<char>> {
    match token {
        Some(t) => split_tok(content, t),
        None => split_ws(content),
    }
}

/// Every field is at most as long as the content it was split from.
pub proof fn lemma_fields_of_len(content: Seq<char>, token: Option<char>)
    ensures
        forall|k: int|
            0 <= k < fields_of(content, token).len()
                ==> (#[trigger] fields_of(content, token)[k]).len() <= content.len(),
{
    match token {
        Some(t) => lemma_split_tok_fields(content, t),
        None => lemma_split_ws_fields(content),
    }
}

/// Index where the comment suffix of `line` begins: the first occurrence of
/// the comment token, or the line's length when comments are disabled or the
/// token does not occur.
pub open spec fn comment_start(line: Seq<char>, token: Option<char>) -> int {
    match token {
        None => line.len() as int,
        Some(t) => find_tok(line, t),
    }
}

/// The part of `line` before its comment suffix.
pub open spec fn content_of(line: Seq<char>, token: Option<char>) -> Seq<char> {
    line.take(comment_start(line, token))
}

/// The comment suffix of `line`, beginning with the comment token; empty when
/// there is none.
pub open spec fn comment_of(line: Seq<char>, token: Option<char>) -> Seq<char> {
    line.skip(comment_start(line, token))
}

/// The comment split is a partition of the line, and the content never
/// contains the comment token.
pub proof fn lemma_comment_split(line: Seq<char>, token: Option<char>)
    ensures
        0 <= comment_start(line, token) <= line.len(),
        content_of(line, token) + comment_of(line, token) =~= line,
        token matches Some(t) ==> forall|j: int|
            0 <= j < content_of(line, token).len() ==> content_of(line, token)[j] != t,
        token matches Some(t) ==> (comment_of(line, token).len() > 0 ==> comment_of(
            line,
            token,
        )[0] == t),
{
    match token {
        None => {
        },
        Some(t) => {
            lemma_find_tok(line, t);
        },
    }
}

/// Views of a sequence of character vectors.
pub open spec fn seq_views(fs: Seq<Vec<char>>) -> Seq<Seq<char>> {
    Seq::new(fs.len(), |i: int| fs[i]@)
}

/// A copy of `v[a..b]`.
fn copy_range(v: &Vec<char>, a: usize, b: usize) -> (r: Vec<char>)
    requires
        a <= b <= v@.len(),
    ensures
        r@ == v@.subrange(a as int, b as int),
{
    let mut r: Vec<char> = Vec::new();
    let mut i: usize = a;
    while i < b
        invariant
            a <= i <= b <= v@.len(),
            r@ == v@.subrange(a as int, i as int),
        decreases b - i,
    {
        r.push(v[i]);
        proof {
            assert(v@.subrange(a as int, i + 1 as int) =~= v@.subrange(a as int, i as int).push(
                v@[i as int],
            ));
        }
        i = i + 1;
    }
    r
}

/// Splits `line` into the part before the first occurrence of the comment
/// token and the comment suffix from that occurrence on. With no token, or a
/// token that does not occur, the whole line is content and the comment is
/// empty.
pub fn split_comment(line: &Vec<char>, token: &Option<char>) -> (r: (Vec<char>, Vec<char>))
    ensures
        r.0@ == content_of(line@, *token),
        r.1@ == comment_of(line@, *token),
{
    match token {
        None => {
            proof {
                assert(content_of(line@, *token) =~= line@.subrange(0, line@.len() as int));
                assert(comment_of(line@, *token) =~= line@.subrange(
                    line@.len() as int,
                    line@.len() as int,
                ));
            }
            (copy_range(line, 0, line.len()), copy_range(line, line.len(), line.len()))
        },
        Some(t) => {
            let mut idx: usize = 0;
            while idx < line.len() && line[idx] != *t
                invariant
                    idx <= line@.len(),
                    forall|j: int| 0 <= j < idx ==> line@[j] != *t,
                decreases line@.len() - idx,
            {
                idx = idx + 1;
            }
            proof {
                lemma_find_tok_from_scan(line@, *t, idx as int);
            }
            (copy_range(line, 0, idx), copy_range(line, idx, line.len()))
        },
    }
}

/// Splits `line` on every occurrence of the delimiter `t`, keeping empty
/// fields between consecutive delimiters.
fn split_tok_exec(line: &Vec<char>, t: char) -> (fields: Vec<Vec<char>>)
    ensures
        seq_views(fields@) == split_tok(line@, t),
{
    let mut fields: Vec<Vec<char>> = Vec::new();
    let mut field: Vec<char> = Vec::new();
    let ghost mut start: int = 0;
    let mut i: usize = 0;
    proof {
        assert(line@.skip(0) =~= line@);
        assert(seq_views(fields@) =~= Seq::<Seq<char>>::empty());
        assert(seq_views(fields@) + split_tok(line@, t) =~= split_tok(line@, t));
        assert(field@ =~= line@.subrange(0, 0));
    }
    while i < line.len()
        invariant
            0 <= start <= i <= line@.len(),
            field@ == line@.subrange(start, i as int),
            forall|j: int| start <= j < i ==> line@[j] != t,
            seq_views(fields@) + split_tok(line@.skip(start), t) =~= split_tok(line@, t),
        decreases line@.len() - i,
    {
        if line[i] == t {
            proof {
                lemma_split_tok_step(line@.skip(start), t, i - start);
                assert(line@.skip(start).take(i - start) =~= line@.subrange(start, i as int));
                assert(line@.skip(start).skip(i - start + 1) =~= line@.skip(i + 1));
                assert(seq_views(fields@.push(field)) =~= seq_views(fields@).push(field@));
                assert(seq_views(fields@.push(field)) + split_tok(line@.skip(i + 1), t)
                    =~= seq_views(fields@) + (seq![field@] + split_tok(line@.skip(i + 1), t)));
            }
            fields.push(field);
            field = Vec::new();
            i = i + 1;
            proof {
                start = i as int;
                assert(field@ =~= line@.subrange(start, i as int));
            }
        } else {
            field.push(line[i]);
            i = i + 1;
            proof {
                assert(field@ =~= line@.subrange(start, i as int));
            }
        }
    }
    proof {
        assert(line@.skip(start) =~= line@.subrange(start, i as int));
        lemma_split_tok_none(line@.skip(start), t);
        assert(seq_views(fields@.push(field)) =~= seq_views(fields@).push(field@));
        assert(seq_views(fields@) + seq![field@] =~= seq_views(fields@.push(field)));
    }
    fields.push(field);
    fields
}

/// Splits `line` on maximal runs of whitespace, discarding runs at the
/// boundaries.
fn split_ws_exec(line: &Vec<char>) -> (fields: Vec<Vec<char>>)
    ensures
        seq_views(fields@) == split_ws(line@),
{
    let mut fields: Vec<Vec<char>> = Vec::new();
    let mut i: usize = 0;
    proof {
        assert(line@.skip(0) =~= line@);
        assert(seq_views(fields@) =~= Seq::<Seq<char>>::empty());
        assert(seq_views(fields@) + split_ws(line@) =~= split_ws(line@));
    }
    while i < line.len()
        invariant
            i <= line@.len(),
            seq_views(fields@) + split_ws(line@.skip(i as int)) =~= split_ws(line@),
        decreases line@.len() - i,
    {
        if is_ws_char(line[i]) {
            proof {
                assert(line@.skip(i as int).drop_first() =~= line@.skip(i + 1));
            }
            i = i + 1;
        } else {
            let ghost fstart: int = i as int;
            let mut field: Vec<char> = Vec::new();
            field.push(line[i]);
            i = i + 1;
            while i < line.len() && !is_ws_char(line[i])
                invariant
                    0 <= fstart < i <= line@.len(),
                    field@ == line@.subrange(fstart, i as int),
                    forall|j: int| fstart <= j < i ==> !is_ws(line@[j]),
                decreases line@.len() - i,
            {
                field.push(line[i]);
                i = i + 1;
                proof {
                    assert(field@ =~= line@.subrange(fstart, i as int));
                }
            }
            proof {
                lemma_split_ws_run(line@.skip(fstart), i - fstart);
                assert(line@.skip(fstart).take(i - fstart) =~= line@.subrange(fstart, i as int));
                assert(line@.skip(fstart).skip(i - fstart) =~= line@.skip(i as int));
                assert(seq_views(fields@.push(field)) =~= seq_views(fields@).push(field@));
                assert(seq_views(fields@.push(field)) + split_ws(line@.skip(i as int))
                    =~= seq_views(fields@) + (seq![field@] + split_ws(line@.skip(i as int))));
            }
            fields.push(field);
        }
    }
    proof {
        assert(line@.skip(i as int) =~= Seq::<char>::empty());
        assert(seq_views(fields@) + split_ws(line@.skip(i as int)) =~= seq_views(fields@));
    }
    fields
}

/// Splits a line into fields: on every occurrence of the delimiter when one
/// is configured, on maximal whitespace runs otherwise.
pub fn split_by(line: &Vec<char>, token: &Option<char>) -> (fields: Vec<Vec<char>>)
    ensures
        seq_views(fields@) == fields_of(line@, *token),
{
    match token {
        Some(t) => split_tok_exec(line, *t),
        None => split_ws_exec(line),
    }
}

} // verus!
