use cirru_parser::{extract_snippet, CirruError, CirruErrorKind, ErrorContext, SourcePos};

#[test]
fn test_error_display() {
  let err = CirruError::new(CirruErrorKind::UnexpectedChar('x'));
  assert_eq!(err.to_string(), "Unexpected character 'x'");
}

#[test]
fn test_error_with_context() {
  let pos = SourcePos::new(10, 5, 100);
  let ctx = ErrorContext::new(pos, Some("foo bar".to_string()), "in list".to_string());
  let err = CirruError::with_context(CirruErrorKind::UnexpectedEof, ctx);
  let display = err.to_string();
  assert!(display.contains("line 10"));
}

#[test]
fn test_snippet_extraction() {
  let code = "line1\nline2\nline3\nline4\nline5";
  let pos = SourcePos::new(3, 3, 12);
  let snippet = extract_snippet(code, &pos).unwrap();
  assert!(snippet.contains("line2"));
  assert!(snippet.contains("line3"));
  assert!(snippet.contains("line4"));
  assert!(snippet.contains("^"));
}

#[test]
fn snippet_is_exact() {
  let code = "line1\nline2\nline3\nline4\nline5";
  let pos = SourcePos::new(3, 3, 12);
  assert_eq!(
    extract_snippet(code, &pos),
    Some(String::from("   2 | line2\n   3 | line3\n     |   ^\n   4 | line4\n"))
  );
}

#[test]
fn snippet_at_the_edges() {
  let code = "one\r\ntwo\n";
  assert_eq!(extract_snippet(code, &SourcePos::new(0, 1, 0)), None);
  assert_eq!(extract_snippet(code, &SourcePos::new(3, 1, 0)), None);
  assert_eq!(
    extract_snippet(code, &SourcePos::new(1, 1, 0)),
    Some(String::from("   1 | one\n     | ^\n   2 | two\n"))
  );
  assert_eq!(
    extract_snippet(code, &SourcePos::new(2, 0, 0)),
    Some(String::from("   1 | one\n   2 | two\n     | ^\n"))
  );
  assert_eq!(extract_snippet("", &SourcePos::new(1, 1, 0)), None);
}

#[test]
fn snippet_pads_numbers_to_four_columns() {
  let mut code = String::new();
  for _ in 0..12000 {
    code.push_str("x\n");
  }
  assert_eq!(
    extract_snippet(&code, &SourcePos::new(10000, 1, 0)),
    Some(String::from("9999 | x\n10000 | x\n     | ^\n10001 | x\n"))
  );
}

#[test]
fn messages_of_all_kinds() {
  assert_eq!(CirruErrorKind::UnexpectedChar('x').to_string(), "Unexpected character 'x'");
  assert_eq!(CirruErrorKind::UnexpectedEof.to_string(), "Unexpected end of file");
  assert_eq!(CirruErrorKind::UnmatchedParen.to_string(), "Unmatched parenthesis");
  assert_eq!(
    CirruErrorKind::InvalidIndentation(3).to_string(),
    "Invalid indentation (odd number: 3)"
  );
  assert_eq!(
    CirruErrorKind::InvalidIndentation(255).to_string(),
    "Invalid indentation (odd number: 255)"
  );
  assert_eq!(
    CirruErrorKind::UnexpectedNewlineInString.to_string(),
    "Unexpected newline in string literal"
  );
  assert_eq!(CirruErrorKind::InvalidEscape('x').to_string(), "Invalid escape sequence '\\x'");
  assert_eq!(
    CirruErrorKind::UnexpectedCloseParen.to_string(),
    "Unexpected closing parenthesis ')'"
  );
  assert_eq!(
    CirruErrorKind::WrongExprCount { expected: 1, got: 20 }.to_string(),
    "Expected 1 expression(s), but got 20"
  );
  assert_eq!(CirruErrorKind::Other(String::from("plain")).to_string(), "plain");
}

#[test]
fn error_shows_its_place() {
  let pos = SourcePos::new(10, 5, 100);
  assert_eq!(pos.to_string(), "line 10, column 5");
  let ctx = ErrorContext::new(pos, None, "in list".to_string());
  let err = CirruError::with_context(CirruErrorKind::UnexpectedEof, ctx);
  assert_eq!(err.to_string(), "Unexpected end of file at line 10, column 5");
  let text: String = err.into();
  assert_eq!(text, "Unexpected end of file at line 10, column 5");
}

#[test]
fn error_from_message() {
  let err = CirruError::from_message("broken");
  assert_eq!(err.kind, CirruErrorKind::Other(String::from("broken")));
  assert_eq!(err.context, None);
  let again: CirruError = "broken".into();
  assert_eq!(again, err);
  let third: CirruError = String::from("broken").into();
  assert_eq!(third, err);
}

#[test]
fn detailed_form() {
  let plain = CirruError::new(CirruErrorKind::UnexpectedEof);
  assert_eq!(plain.format_detailed(None), "Error: Unexpected end of file");
  assert_eq!(plain.format_detailed(Some("a b")), "Error: Unexpected end of file");

  let pos = SourcePos::new(2, 3, 6);
  let with_snippet = CirruError::with_context(
    CirruErrorKind::InvalidEscape('x'),
    ErrorContext::new(pos, Some(String::from("b \\x")), String::from("in escape sequence")),
  );
  assert_eq!(
    with_snippet.format_detailed(Some("a\nb \"\\x\"")),
    "Error: Invalid escape sequence '\\x'\n  at line 2, column 3\n  context: in escape sequence\n  near (escaped): b \\x"
  );

  let without = CirruError::with_context(
    CirruErrorKind::UnexpectedChar('%'),
    ErrorContext::new(pos, None, String::from("in token")),
  );
  assert_eq!(
    without.format_detailed(None),
    "Error: Unexpected character '%'\n  at line 2, column 3\n  context: in token"
  );
  assert_eq!(
    without.format_detailed(Some("ab\ncd%\nef")),
    "Error: Unexpected character '%'\n  at line 2, column 3\n  context: in token\n\n   1 | ab\n   2 | cd%\n     |   ^\n   3 | ef\n"
  );
  assert_eq!(
    without.format_detailed(Some("ab")),
    "Error: Unexpected character '%'\n  at line 2, column 3\n  context: in token"
  );
}
