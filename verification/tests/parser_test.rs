use cirru_parser::CirruLexItem::{Close, Open};
use cirru_parser::{build_exprs, parse, Cirru, CirruErrorKind, CirruLexItem};

#[test]
fn parse_demo() {
  assert_eq!(parse("a").map(Cirru::List), Ok(Cirru::List(vec!(vec!["a"].into()))));

  assert_eq!(parse("a b c").map(Cirru::List), Ok(Cirru::List(vec!(vec!["a", "b", "c"].into()))));

  assert_eq!(
    parse("a\nb").map(Cirru::List),
    Ok(Cirru::List(vec!(vec!["a"].into(), vec!["b"].into())))
  );

  assert_eq!(parse("a\rb").map(Cirru::List), Ok(Cirru::List(vec!(vec!["a\rb"].into()))));

  assert_eq!(
    parse("a (b) c").map(Cirru::List),
    Ok(Cirru::List(vec![vec![Cirru::leaf("a"), vec!["b"].into(), "c".into()].into()]))
  );

  assert_eq!(
    parse("a (b)\n  c").map(Cirru::List),
    Ok(Cirru::List(vec!(vec![Cirru::leaf("a"), vec!["b"].into(), vec!["c"].into()].into())))
  );

  assert_eq!(parse("").map(Cirru::List), Ok((vec![] as Vec<Cirru>).into()));
}

#[test]
fn parse_concrete_example() {
  let code = "defn main\n  println \"Hello, world!\"";
  let expected = Ok(vec![Cirru::List(vec![
    Cirru::Leaf("defn".into()),
    Cirru::Leaf("main".into()),
    Cirru::List(vec![Cirru::Leaf("println".into()), Cirru::Leaf("Hello, world!".into())]),
  ])]);
  assert_eq!(parse(code), expected);
}

#[test]
fn parse_empty_input() {
  assert_eq!(parse(""), Ok(vec![]));
  assert_eq!(parse("\n  \n"), Ok(vec![]));
}

#[test]
fn indentation_and_parentheses_agree() {
  // each indented line is a list inside the line above it
  let by_indent = parse("a\n  b\n  c").unwrap();
  let by_parens = parse("a (b) (c)").unwrap();
  assert_eq!(by_indent, by_parens);
  assert_eq!(
    by_indent,
    vec![Cirru::List(vec![Cirru::leaf("a"), vec!["b"].into(), vec!["c"].into()])]
  );
  assert_eq!(parse("a\n  b c\n    d").unwrap(), parse("a (b c (d))").unwrap());
  // explicit parentheses around a whole line add one list
  assert_eq!(
    parse("(a b c)").unwrap(),
    vec![Cirru::List(vec![Cirru::List(vec!["a".into(), "b".into(), "c".into()])])]
  );
}

#[test]
fn odd_indentation_always_fails() {
  for code in ["a\n b", "a\n   b", " a", "a\n  b\n     c", "a b\n\n c"] {
    let err = parse(code).unwrap_err();
    assert!(matches!(err.kind, CirruErrorKind::InvalidIndentation(_)));
  }
  assert_eq!(parse("a\n   b").unwrap_err().kind, CirruErrorKind::InvalidIndentation(3));
}

#[test]
fn dollar_desugaring() {
  assert_eq!(parse("a $ b c"), parse("a (b c)"));
  assert_eq!(
    parse("a $ b c").unwrap(),
    vec![Cirru::List(vec![Cirru::leaf("a"), vec!["b", "c"].into()])]
  );
  assert_eq!(parse("a $ b $ c"), parse("a (b (c))"));
  assert_eq!(parse("a $"), parse("a ()"));
  assert_eq!(parse("a (b $ c) d"), parse("a (b (c)) d"));
}

#[test]
fn comma_splicing() {
  assert_eq!(parse("a (, b c) d"), parse("a b c d"));
  assert_eq!(parse("a (, b c) d").unwrap(), vec![Cirru::List(vec!["a", "b", "c", "d"].into_iter().map(Cirru::leaf).collect())]);
  assert_eq!(parse("a\n  , b c\n  d"), parse("a b c (d)"));
  assert_eq!(parse("a (, (, b) c)"), parse("a b c"));
  assert_eq!(parse("a , b"), parse("a b"));
  assert_eq!(parse("a (b (, c d))"), parse("a (b c d)"));
}

#[test]
fn parse_errors_of_the_builder() {
  let err = parse("(a").unwrap_err();
  assert_eq!(err.kind, CirruErrorKind::UnexpectedEof);
  assert_eq!(err.context, None);
  let err = parse("a)").unwrap_err();
  assert_eq!(err.kind, CirruErrorKind::UnexpectedCloseParen);
  assert_eq!(err.context, None);
}

#[test]
fn parse_errors_of_the_lexer() {
  assert_eq!(parse("\"abc").unwrap_err().kind, CirruErrorKind::UnexpectedEof);
  assert_eq!(parse("a \"b\nc\"").unwrap_err().kind, CirruErrorKind::UnexpectedNewlineInString);
  assert_eq!(parse("a \"\\z\"").unwrap_err().kind, CirruErrorKind::InvalidEscape('z'));
  assert_eq!(parse("a\n)").unwrap_err().kind, CirruErrorKind::UnexpectedCloseParen);
}

#[test]
fn build_from_tokens() {
  let tokens: Vec<CirruLexItem> = vec![Open, "a".into(), Open, "b".into(), Close, Close, Open, Close];
  assert_eq!(
    build_exprs(&tokens),
    Ok(vec![Cirru::List(vec![Cirru::leaf("a"), vec!["b"].into()]), Cirru::List(vec![])])
  );
  assert_eq!(build_exprs(&[]), Ok(vec![]));

  let stray_close: Vec<CirruLexItem> = vec![Open, Close, Close];
  assert_eq!(build_exprs(&stray_close).unwrap_err().kind, CirruErrorKind::UnexpectedCloseParen);

  let unclosed: Vec<CirruLexItem> = vec![Open, Open, "a".into(), Close];
  assert_eq!(build_exprs(&unclosed).unwrap_err().kind, CirruErrorKind::UnexpectedEof);

  let stray_token: Vec<CirruLexItem> = vec!["a".into()];
  assert_eq!(
    build_exprs(&stray_token).unwrap_err().kind,
    CirruErrorKind::Other(String::from("unexpected token outside of an expression"))
  );
}

#[test]
fn resolve_in_place() {
  let mut xs: Vec<Cirru> = vec!["a".into(), "$".into(), "b".into(), "$".into(), "c".into()];
  cirru_parser::resolve_dollar(&mut xs);
  assert_eq!(
    xs,
    vec![Cirru::leaf("a"), Cirru::List(vec![Cirru::leaf("b"), Cirru::List(vec![Cirru::leaf("c")])])]
  );

  let mut ys: Vec<Cirru> = vec!["a".into(), vec![",", "b", "c"].into(), ",".into(), vec!["d", ","].into()];
  cirru_parser::resolve_comma(&mut ys);
  assert_eq!(ys, vec![Cirru::leaf("a"), Cirru::leaf("b"), Cirru::leaf("c"), vec!["d"].into()]);

  let mut zs: Vec<Cirru> = vec![vec!["a", "$", "b"].into()];
  cirru_parser::resolve_dollar(&mut zs);
  assert_eq!(zs, vec![Cirru::List(vec![Cirru::leaf("a"), vec!["b"].into()])]);

  let mut none: Vec<Cirru> = vec!["a".into(), vec!["b"].into()];
  cirru_parser::resolve_dollar(&mut none);
  cirru_parser::resolve_comma(&mut none);
  assert_eq!(none, vec![Cirru::leaf("a"), vec!["b"].into()]);
}
