use loc::classify;

fn counts(input: &[u8]) -> (u64, u64, u64, u64) {
    let bytes = input.to_vec();
    let info = classify(&bytes);
    (
        info.comments_count,
        info.blank_spaces_count,
        info.lines_of_code,
        info.nums_of_files,
    )
}

#[test]
fn empty_input_has_no_lines() {
    assert_eq!(counts(b""), (0, 0, 0, 1));
}

#[test]
fn only_newlines_all_blank() {
    assert_eq!(counts(b"\n\n\n\n"), (0, 4, 0, 1));
}

#[test]
fn comment_code_blank_one_each() {
    assert_eq!(counts(b"// hello\nint x = 1;\n\n"), (1, 1, 1, 1));
}

#[test]
fn block_comment_spans_three_lines() {
    assert_eq!(counts(b"/* a\nb\nc */\n"), (3, 0, 0, 1));
}

#[test]
fn one_line_block_does_not_linger() {
    assert_eq!(counts(b"/* one-liner */\ncode();\n"), (1, 0, 1, 1));
}

#[test]
fn final_line_without_newline_counts() {
    assert_eq!(counts(b"code"), (0, 0, 1, 1));
    assert_eq!(counts(b"// tail comment"), (1, 0, 0, 1));
}

#[test]
fn sums_match_line_counts() {
    for (input, lines) in [
        (&b""[..], 0),
        (&b"a\nb\nc\n"[..], 3),
        (&b"a\nb\nc"[..], 3),
        (&b"\n"[..], 1),
        (&b"/* x\ny */\n\nz\n"[..], 4),
    ] {
        let (c, b, l, _) = counts(input);
        assert_eq!(c + b + l, lines);
    }
}

#[test]
fn closer_alone_is_code() {
    assert_eq!(counts(b"*/\n"), (0, 0, 1, 1));
}

#[test]
fn line_with_code_before_closer_still_comment() {
    assert_eq!(counts(b"/*\nfoo(); */\ncode();\n"), (2, 0, 1, 1));
}

#[test]
fn closer_must_end_the_line() {
    // the block stays open when the closer is not the line's last token
    assert_eq!(counts(b"/*\na */ b\nc\n"), (3, 0, 0, 1));
}

#[test]
fn single_line_markers() {
    assert_eq!(counts(b"# a\n-- b\n; c\n//! d\n/// e\n"), (5, 0, 0, 1));
}

#[test]
fn bare_triple_quote_opens_no_block() {
    // a lone ''' both begins and ends with the marker, so the heuristic
    // treats it as closed on the spot and the body lines count as code
    assert_eq!(counts(b"'''\ndoc\n'''\ncode\n"), (2, 0, 2, 1));
}

#[test]
fn python_docstring_block() {
    assert_eq!(counts(b"''' doc:\nsays things\n'''\ncode\n"), (3, 0, 1, 1));
}

#[test]
fn double_quote_docstring_block() {
    assert_eq!(counts(b"\"\"\" doc:\nbody\n\"\"\"\n"), (3, 0, 0, 1));
}

#[test]
fn html_comment_block() {
    assert_eq!(counts(b"<!--\nhi\n-->\n<p>x</p>\n"), (3, 0, 1, 1));
}

#[test]
fn one_line_docstring_does_not_open_block() {
    assert_eq!(counts(b"''' x '''\ncode\n"), (1, 0, 1, 1));
}

#[test]
fn foreign_closer_does_not_close_an_opening_text_line() {
    // a line that opens a text block is closed on the spot only by a
    // text closer: a trailing */ leaves the block open
    assert_eq!(counts(b"\"\"\" a */\ncode\n"), (2, 0, 0, 1));
    assert_eq!(counts(b"''' b */\ncode\n"), (2, 0, 0, 1));
    assert_eq!(counts(b"<!-- c */\ntext\n-->\nafter\n"), (3, 0, 1, 1));
}

#[test]
fn any_closer_ends_any_block() {
    // a ''' block is closed by */ as well: any recognized closer counts
    assert_eq!(counts(b"''' doc:\nfoo */\ncode\n"), (2, 0, 1, 1));
}

#[test]
fn whitespace_only_lines_are_blank() {
    assert_eq!(counts(b"   \n\t\n"), (0, 2, 0, 1));
}

#[test]
fn markers_are_found_after_indentation() {
    assert_eq!(counts(b"   // x\n\t# y\n"), (2, 0, 0, 1));
}

#[test]
fn carriage_returns_are_trimmed() {
    assert_eq!(counts(b"// a\r\nb\r\n"), (1, 0, 1, 1));
}

#[test]
fn unicode_whitespace_is_trimmed() {
    // a no-break space before a marker still leaves a comment line
    assert_eq!(counts(b"\xc2\xa0// x\n"), (1, 0, 0, 1));
    // a line of no-break and ideographic spaces alone is blank
    assert_eq!(counts(b"\xc2\xa0\xe3\x80\x80\n"), (0, 1, 0, 1));
    // line separators around code are trimmed away
    assert_eq!(counts(b"\xe2\x80\xa8code\xe2\x80\xa8\n"), (0, 0, 1, 1));
}

#[test]
fn stray_continuation_bytes_are_content() {
    // a lone continuation byte is not valid whitespace: the line holds
    // content and counts as code
    assert_eq!(counts(b"\xa0\n"), (0, 0, 1, 1));
    assert_eq!(counts(b"\x80\x80// not leading\n"), (0, 0, 1, 1));
}

#[test]
fn unterminated_block_runs_to_the_end() {
    assert_eq!(counts(b"/*\na\nb"), (3, 0, 0, 1));
}
