use vstd::prelude::*;

verus! {

/// Display width in terminal cells of a single character, as the
/// `unicode-width` crate reports it, with control characters counted as zero
/// cells. The value depends on the character alone.
pub uninterp spec fn cell_width(c: char) -> nat;

/// Display width of a string of characters: the sum of the cell widths of its
/// characters.
pub open spec fn str_width(s: Seq<char>) -> nat
    decreases s.len(),
{
    if s.len() == 0 {
        0
    } else {
        cell_width(s[0]) + str_width(s.drop_first())
    }
}

/// Relies on `unicode_width::UnicodeWidthChar::width`: the display width of a
/// character in columns, `None` for a control character. The crate's tables
/// hold no width above 3, and map every printable ASCII character
/// (U+0020 to U+007E) to 1. A control character is counted as zero cells
/// here.
#[verifier::external_body]
fn cell_width_exec(c: char) -> (w: usize)
    ensures
        w == cell_width(c),
        w <= 3,
        0x20 <= c as u32 && c as u32 <= 0x7E ==> w == 1,
{
    unicode_width::UnicodeWidthChar::width(c).unwrap_or(0)
}

/// The width of a concatenation is the sum of the widths of the parts.
pub proof fn lemma_str_width_concat(a: Seq<char>, b: Seq<char>)
    ensures
        str_width(a + b) == str_width(a) + str_width(b),
    decreases a.len(),
{
    if a.len() == 0 {
        assert(a + b =~= b);
    } else {
        assert((a + b).drop_first() =~= a.drop_first() + b);
        lemma_str_width_concat(a.drop_first(), b);
        assert((a + b)[0] == a[0]);
    }
}

/// Extending a prefix by one character adds that character's cell width.
pub proof fn lemma_str_width_take_succ(s: Seq<char>, i: int)
    requires
        0 <= i < s.len(),
    ensures
        str_width(s.take(i + 1)) == str_width(s.take(i)) + cell_width(s[i]),
{
    assert(s.take(i + 1) =~= s.take(i) + seq![s[i]]);
    lemma_str_width_concat(s.take(i), seq![s[i]]);
    assert(seq![s[i]].drop_first() =~= Seq::<char>::empty());
    assert(str_width(Seq::<char>::empty()) == 0);
    assert(str_width(seq![s[i]]) == cell_width(seq![s[i]][0]) + str_width(seq![s[i]].drop_first()));
    assert(str_width(seq![s[i]]) == cell_width(s[i]));
}

/// Unicode-aware display width of one field, in terminal cells: the sum of
/// its characters' cell widths.
///
/// Wide characters (East Asian Wide and Fullwidth) count as two cells,
/// combining marks and control characters as zero, so the result is the
/// number of columns the field occupies on a terminal, not its character
/// count. Measuring character by character differs from `unicode-width`'s
/// whole-string measurement only on multi-character sequences such as CRLF
/// or emoji joined with zero-width joiners, which table fields do not
/// normally hold.
pub fn display_width(field: &Vec<char>) -> (w: usize)
    requires
        3 * field@.len() <= usize::MAX,
    ensures
        w == str_width(field@),
        w <= 3 * field@.len(),
{
    let mut w: usize = 0;
    let mut i: usize = 0;
    while i < field.len()
        invariant
            i <= field@.len(),
            3 * field@.len() <= usize::MAX,
            w == str_width(field@.take(i as int)),
            w <= 3 * i,
        decreases field@.len() - i,
    {
        let cw = cell_width_exec(field[i]);
        proof {
            lemma_str_width_take_succ(field@, i as int);
        }
        w = w + cw;
        i = i + 1;
    }
    proof {
        assert(field@.take(field@.len() as int) =~= field@);
    }
    w
}

} // verus!
