use yaml0::Parser;

#[test]
fn advance_tracks_line_col() {
    let mut parser = Parser::new("ab\ncd");
    parser.advance();
    parser.advance();
    parser.advance();
    parser.advance();
    assert_eq!((parser.line(), parser.col()), (2, 2))
}

#[test]
fn skip_spaces_stops_at_newline() {
    let mut parser = Parser::new("    \nx");
    parser.skip_spaces();
    assert!(parser.at_line_end());
    assert_eq!(parser.peek(), Some(b'\n'));
}

#[test]
fn skip_blank_skips_comments_and_blanks() {
    let mut parser = Parser::new("\n# x\n\n  y");
    parser.skip_blank_and_comment_lines();
    assert_eq!(parser.peek(), Some(b' '));
    parser.advance();
    assert_eq!(parser.peek(), Some(b' '));
    parser.advance();
    assert_eq!(parser.peek(), Some(b'y'));
}

#[test]
fn current_indent_counts_leading_spaces() -> Result<(), yaml0::Error> {
    let parser = Parser::new("    foo");
    let indent = parser.current_indent()?;
    assert_eq!(indent, 4);
    Ok(())
}

#[test]
fn tab_in_indent_errors() {
    let parser = Parser::new("\tfoo");
    let err = parser.current_indent().unwrap_err();
    assert_eq!(err.line, Some(1));
    assert_eq!(err.col, Some(1));
}
