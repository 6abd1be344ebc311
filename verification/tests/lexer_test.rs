use cirru_parser::lex;
use cirru_parser::CirruErrorKind;
use cirru_parser::CirruLexItem;
use cirru_parser::SourcePos;

#[test]
fn lexer() -> Result<(), String> {
  assert_eq!(lex("a")?, vec![0.into(), "a".into()]);
  assert_eq!(lex("a b")?, vec![0.into(), "a".into(), "b".into()],);
  assert_eq!(lex("(a)")?, vec![0.into(), CirruLexItem::Open, "a".into(), CirruLexItem::Close,],);
  assert_eq!(
    lex("(a b)")?,
    vec![0.into(), CirruLexItem::Open, "a".into(), "b".into(), CirruLexItem::Close,],
  );
  assert_eq!(
    lex("(a  b)  ")?,
    vec![0.into(), CirruLexItem::Open, "a".into(), "b".into(), CirruLexItem::Close,],
  );
  Ok(())
}

#[test]
fn lexer_with_indent() -> Result<(), String> {
  assert_eq!(lex("a\n  b")?, vec![0.into(), "a".into(), 1.into(), "b".into(),],);
  assert_eq!(
    lex("a\n  b\nc")?,
    vec![0.into(), "a".into(), 1.into(), "b".into(), 0.into(), "c".into(),],
  );
  Ok(())
}

#[test]
fn lex_strings() -> Result<(), String> {
  assert_eq!(lex("\"a\"")?, vec![0.into(), "a".into()],);

  assert_eq!(lex(r#""a\\""#)?, vec![0.into(), "a\\".into()],);

  assert_eq!(lex(r#""a\n""#)?, vec![0.into(), "a\n".into()],);

  Ok(())
}

#[test]
fn escape_chars() -> Result<(), String> {
  // numeric escapes of Unicode are not supported: they are rejected
  let err = lex(r#""\u{6c49}""#).unwrap_err();
  assert_eq!(err.kind, CirruErrorKind::InvalidEscape('u'));

  assert_eq!(lex(r#""\'""#)?, vec![0.into(), r#"'"#.into()]);
  Ok(())
}

#[test]
fn escape_fidelity() {
  let tokens = lex("\"a\\n\\t\\\"\\\\\\'\"").unwrap();
  assert_eq!(tokens, vec![CirruLexItem::Indent(0), CirruLexItem::Str(String::from("a\n\t\"\\'"))]);
  let tokens = lex("\"\\r\"").unwrap();
  assert_eq!(tokens, vec![CirruLexItem::Indent(0), CirruLexItem::Str(String::from("\r"))]);
}

#[test]
fn unterminated_string_fails() {
  let err = lex("\"abc").unwrap_err();
  assert_eq!(err.kind, CirruErrorKind::UnexpectedEof);
  let ctx = err.context.unwrap();
  // reported at the last character of the input
  assert_eq!(ctx.pos, SourcePos::new(1, 4, 3));
  assert_eq!(ctx.snippet, None);
  assert_eq!(ctx.context_info, "in string");

  let err = lex("\"abc\nxyz\"").unwrap_err();
  assert_eq!(err.kind, CirruErrorKind::UnexpectedNewlineInString);
  let ctx = err.context.unwrap();
  assert_eq!(ctx.pos, SourcePos::new(1, 5, 4));
  assert_eq!(ctx.context_info, "in string");
}

#[test]
fn dangling_escape_fails() {
  let err = lex("\"abc\\").unwrap_err();
  assert_eq!(err.kind, CirruErrorKind::UnexpectedEof);
  let ctx = err.context.unwrap();
  assert_eq!(ctx.pos, SourcePos::new(1, 5, 4));
  assert_eq!(ctx.context_info, "in escape sequence");
}

#[test]
fn invalid_escape_fails() {
  let err = lex("a \"b\\xc\"").unwrap_err();
  assert_eq!(err.kind, CirruErrorKind::InvalidEscape('x'));
  assert_eq!(err.context.unwrap().pos, SourcePos::new(1, 6, 5));
}

#[test]
fn close_paren_at_line_start_fails() {
  let err = lex("a\n) b").unwrap_err();
  assert_eq!(err.kind, CirruErrorKind::UnexpectedCloseParen);
  let ctx = err.context.unwrap();
  assert_eq!(ctx.pos, SourcePos::new(2, 1, 2));
  assert_eq!(ctx.context_info, "at line start");
  // whatever the indentation
  assert_eq!(lex(" )").unwrap_err().kind, CirruErrorKind::UnexpectedCloseParen);
}

#[test]
fn odd_indentation_fails() {
  let err = lex("a\n   b").unwrap_err();
  assert_eq!(err.kind, CirruErrorKind::InvalidIndentation(3));
  assert_eq!(err.context.unwrap().pos, SourcePos::new(2, 4, 5));
  assert_eq!(lex(" a").unwrap_err().kind, CirruErrorKind::InvalidIndentation(1));
  assert_eq!(lex("a\n \"b\"").unwrap_err().kind, CirruErrorKind::InvalidIndentation(1));
  assert_eq!(lex("a\n (b)").unwrap_err().kind, CirruErrorKind::InvalidIndentation(1));
}

#[test]
fn blank_lines_are_invisible() {
  assert_eq!(
    lex("a\n\n   \n  b\n").unwrap(),
    vec![CirruLexItem::Indent(0), "a".into(), CirruLexItem::Indent(1), "b".into()]
  );
  assert_eq!(lex("").unwrap(), vec![]);
  assert_eq!(lex("   ").unwrap(), vec![]);
  assert_eq!(lex("\n\n").unwrap(), vec![]);
}

#[test]
fn token_before_quote_needs_no_separator() {
  assert_eq!(
    lex("a\"b c\"").unwrap(),
    vec![CirruLexItem::Indent(0), "a".into(), "b c".into()]
  );
  assert_eq!(
    lex("a(b)c").unwrap(),
    vec![
      CirruLexItem::Indent(0),
      "a".into(),
      CirruLexItem::Open,
      "b".into(),
      CirruLexItem::Close,
      "c".into()
    ]
  );
}

#[test]
fn line_may_start_with_a_string_or_a_parenthesis() {
  assert_eq!(
    lex("  \"a b\"\n  (c)").unwrap(),
    vec![
      CirruLexItem::Indent(1),
      "a b".into(),
      CirruLexItem::Indent(1),
      CirruLexItem::Open,
      "c".into(),
      CirruLexItem::Close
    ]
  );
}

#[test]
fn byte_offset_counts_utf8() {
  let err = lex("中文 \"\\x\"").unwrap_err();
  assert_eq!(err.kind, CirruErrorKind::InvalidEscape('x'));
  // two characters of three bytes, a space, a quote, a backslash
  assert_eq!(err.context.unwrap().pos, SourcePos::new(1, 6, 9));
}

#[test]
fn indentation_width_is_taken_modulo_256() {
  let mut code = String::from("a\n");
  for _ in 0..258 {
    code.push(' ');
  }
  code.push('b');
  assert_eq!(
    lex(&code).unwrap(),
    vec![CirruLexItem::Indent(0), "a".into(), CirruLexItem::Indent(1), "b".into()]
  );
}

#[test]
fn indentation_of_a_size() {
  assert_eq!(cirru_parser::parse_indentation(4).unwrap(), CirruLexItem::Indent(2));
  assert_eq!(cirru_parser::parse_indentation(0).unwrap(), CirruLexItem::Indent(0));
  let err = cirru_parser::parse_indentation(5).unwrap_err();
  assert_eq!(err.kind, CirruErrorKind::InvalidIndentation(5));
  assert_eq!(err.context, None);
}
