use retable::calculate_field_sizes;
use retable::display_width;
use retable::retable;
use retable::split_by;
use retable::split_comment;
use retable::Args;

fn chars(s: &str) -> Vec<char> {
    s.chars().collect()
}

fn text_of(v: Vec<char>) -> String {
    v.into_iter().collect()
}

fn make_args(
    column_token: Option<char>,
    comment_token: Option<char>,
    padding: char,
    width: usize,
) -> Args {
    Args { column_token, comment_token, padding, width, filenames: Vec::new() }
}

#[test]
fn tab_delimited_scenario() {
    let args = make_args(Some('\t'), None, ' ', 2);
    let text = chars("a\tbb\tccc\nxx\ty\tz\n");
    let sizes = calculate_field_sizes(&text, &args);
    assert_eq!(sizes, vec![4, 4, 5]);
    let out = text_of(retable(&text, &args));
    assert_eq!(out, "a   bb  ccc\nxx  y   z\n");
}

#[test]
fn whitespace_mode_with_comment_scenario() {
    let args = make_args(None, Some('#'), ' ', 2);
    let line = chars("a b # note");
    let (content, comment) = split_comment(&line, &args.comment_token);
    assert_eq!(text_of(content), "a b ");
    assert_eq!(text_of(comment), "# note");
    let fields = split_by(&chars("a b "), &None);
    assert_eq!(fields, vec![chars("a"), chars("b")]);
    let out = text_of(retable(&line, &args));
    assert_eq!(out, "a  b  # note");
}

fn field_starts(line: &str) -> Vec<usize> {
    let mut starts = Vec::new();
    let mut prev_space = true;
    for (i, c) in line.chars().enumerate() {
        if c != ' ' && prev_space {
            starts.push(i);
        }
        prev_space = c == ' ';
    }
    starts
}

#[test]
fn uniform_rows_align_field_starts() {
    let args = make_args(Some('\t'), None, ' ', 2);
    let text = chars("a\tbb\tccc\nxx\ty\tz\nf\tgg\thhh\n");
    let out = text_of(retable(&text, &args));
    let starts: Vec<Vec<usize>> =
        out.split('\n').filter(|l| !l.is_empty()).map(field_starts).collect();
    assert_eq!(starts.len(), 3);
    assert_eq!(starts[0], vec![0, 4, 8]);
    assert_eq!(starts[1], starts[0]);
    assert_eq!(starts[2], starts[0]);
}

#[test]
fn empty_input_renders_empty() {
    let args = make_args(None, None, ' ', 2);
    let text = chars("");
    assert_eq!(calculate_field_sizes(&text, &args), Vec::<usize>::new());
    assert_eq!(text_of(retable(&text, &args)), "");
}

#[test]
fn full_width_character_reserves_two_cells() {
    assert_eq!(display_width(&chars("あ")), 2);
    assert_eq!(display_width(&chars("abc")), 3);
    assert_eq!(display_width(&chars("")), 0);
    let args = make_args(Some('\t'), None, ' ', 2);
    let text = chars("あ\tz\nx\ty\n");
    let sizes = calculate_field_sizes(&text, &args);
    assert_eq!(sizes, vec![4, 3]);
    let out = text_of(retable(&text, &args));
    assert_eq!(out, "あ  z\nx   y\n");
}

#[test]
fn ragged_rows_have_no_trailing_padding() {
    let args = make_args(Some('\t'), None, ' ', 2);
    let text = chars("a\tbb\nccc\td\n");
    let out = text_of(retable(&text, &args));
    for line in out.split('\n') {
        assert!(!line.ends_with(' '));
    }
    assert_eq!(out, "a    bb\nccc  d\n");
}

#[test]
fn comment_suffix_is_kept_verbatim_and_ignored_for_widths() {
    let args = make_args(Some('\t'), Some('#'), ' ', 2);
    let text = chars("a\tb# a very long comment that must not widen any column\nlonger\tx\n");
    let sizes = calculate_field_sizes(&text, &args);
    assert_eq!(sizes, vec![8, 3]);
    let out = text_of(retable(&text, &args));
    assert_eq!(
        out,
        "a       b  # a very long comment that must not widen any column\nlonger  x\n"
    );
}

#[test]
fn blank_and_comment_lines_add_no_columns() {
    let args = make_args(Some('\t'), Some('#'), ' ', 2);
    let text = chars("#");
    assert_eq!(calculate_field_sizes(&text, &args), Vec::<usize>::new());
    assert_eq!(text_of(retable(&text, &args)), "#");
    let text = chars("# one\n\n# two\n");
    assert_eq!(calculate_field_sizes(&text, &args), Vec::<usize>::new());
    assert_eq!(text_of(retable(&text, &args)), "# one\n\n# two\n");
}

#[test]
fn khmer_sign_beyyal_is_three_cells() {
    assert_eq!(display_width(&chars("\u{17D8}")), 3);
    let args = make_args(Some('\t'), None, ' ', 2);
    let text = chars("\u{17D8}\tz\nx\ty\n");
    assert_eq!(calculate_field_sizes(&text, &args), vec![5, 3]);
}

#[test]
fn comment_only_and_blank_lines_pass_through() {
    let args = make_args(None, Some('#'), ' ', 2);
    let text = chars("# heading\n\na b\n");
    let out = text_of(retable(&text, &args));
    assert_eq!(out, "# heading\n\na  b\n");
}

#[test]
fn whitespace_mode_rerun_is_idempotent() {
    let args = make_args(None, Some('#'), ' ', 2);
    let text = chars("alpha b c\nd epsilon f # end\n\n# note\n");
    let once = retable(&text, &args);
    let twice = retable(&once, &args);
    assert_eq!(once, twice);
}

#[test]
fn literal_delimiter_keeps_empty_fields() {
    let fields = split_by(&chars("a\t\tb"), &Some('\t'));
    assert_eq!(fields, vec![chars("a"), chars(""), chars("b")]);
    let fields = split_by(&chars("\t"), &Some('\t'));
    assert_eq!(fields, vec![chars(""), chars("")]);
}

#[test]
fn whitespace_mode_collapses_runs_and_trims() {
    let fields = split_by(&chars("  a \t b  "), &None);
    assert_eq!(fields, vec![chars("a"), chars("b")]);
    let fields = split_by(&chars("   "), &None);
    assert_eq!(fields, Vec::<Vec<char>>::new());
}

#[test]
fn split_comment_without_token_returns_whole_line() {
    let line = chars("a b c");
    let (content, comment) = split_comment(&line, &None);
    assert_eq!(text_of(content), "a b c");
    assert_eq!(text_of(comment), "");
    let (content, comment) = split_comment(&line, &Some('#'));
    assert_eq!(text_of(content), "a b c");
    assert_eq!(text_of(comment), "");
}

#[test]
fn custom_padding_character() {
    let args = make_args(Some(','), None, '.', 1);
    let text = chars("a,bb\nccc,d\n");
    let out = text_of(retable(&text, &args));
    assert_eq!(out, "a...bb\nccc.d\n");
}

#[test]
fn no_trailing_newline_is_preserved() {
    let args = make_args(Some('\t'), None, ' ', 2);
    let text = chars("a\tb\nc\td");
    let out = text_of(retable(&text, &args));
    assert_eq!(out, "a  b\nc  d");
}
