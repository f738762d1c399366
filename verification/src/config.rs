use vstd::prelude::*;

verus! {

/// Resolved configuration shared by the width pass and the render pass.
///
/// `column_token` selects the field delimiter: `Some(c)` splits on every
/// occurrence of `c` (empty fields between consecutive delimiters are kept),
/// `None` splits on maximal runs of whitespace (never yielding empty fields).
/// `comment_token` enables trailing line comments: text from the first
/// occurrence of the token to the end of the line passes through verbatim and
/// contributes nothing to the column widths. `padding` is the character
/// inserted to fill a column, and `width` is the fixed extra width added to
/// every column on top of its widest field. `filenames` lists the input
/// sources; it is carried for the caller's benefit and never read by the
/// formatting logic.
pub struct Args {
    pub column_token: Option<char>,
    pub comment_token: Option<char>,
    pub padding: char,
    pub width: usize,
    pub filenames: Vec<String>,
}

} // verus!
