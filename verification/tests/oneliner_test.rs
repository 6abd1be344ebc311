use cirru_parser::{format_expr_one_liner, format_expr_oneliner, parse_expr_one_liner, Cirru, CirruErrorKind};

#[test]
fn test_format_expr_one_liner() -> Result<(), String> {
  let tree = Cirru::List(vec![
    Cirru::Leaf("defn".into()),
    Cirru::Leaf("main".into()),
    Cirru::List(vec![]),
    Cirru::List(vec![Cirru::Leaf("println".into()), Cirru::Leaf("Hello, world!".into())]),
  ]);

  // the last list follows a leaf-shaped item, so it is written after `$`
  let one_liner = format_expr_one_liner(&tree)?;
  assert_eq!(one_liner, "defn main () $ println \"Hello, world!\"");
  assert_eq!(format_expr_oneliner(&tree)?, one_liner);

  let parsed = parse_expr_one_liner(&one_liner)?;
  assert_eq!(parsed, tree);
  Ok(())
}

#[test]
fn test_multiple_statements_is_error() {
  assert!(parse_expr_one_liner("a\nb").is_err());
}

#[test]
fn test_complex_nesting() -> Result<(), String> {
  let tree = Cirru::List(vec![
    Cirru::Leaf("a".into()),
    Cirru::List(vec![Cirru::Leaf("b".into()), Cirru::List(vec![Cirru::Leaf("c".into())])]),
    Cirru::Leaf("d".into()),
  ]);

  let one_liner = format_expr_one_liner(&tree)?;
  assert_eq!(one_liner, "a (b (c)) d");

  let parsed = parse_expr_one_liner(&one_liner)?;
  assert_eq!(parsed, tree);

  Ok(())
}

#[test]
fn one_liner_arity() {
  let err = parse_expr_one_liner("a\nb").unwrap_err();
  assert_eq!(err.kind, CirruErrorKind::WrongExprCount { expected: 1, got: 2 });
  assert_eq!(err.context, None);
  let err = parse_expr_one_liner("").unwrap_err();
  assert_eq!(err.kind, CirruErrorKind::WrongExprCount { expected: 1, got: 0 });
  let err = parse_expr_one_liner("(a").unwrap_err();
  assert_eq!(err.kind, CirruErrorKind::UnexpectedEof);
  assert_eq!(parse_expr_one_liner("a b").unwrap(), Cirru::List(vec![Cirru::leaf("a"), Cirru::leaf("b")]));
}

#[test]
fn one_liner_tails() {
  let tail_empty = Cirru::List(vec![Cirru::leaf("a"), Cirru::List(vec![])]);
  assert_eq!(format_expr_oneliner(&tail_empty).unwrap(), "a $");
  assert_eq!(parse_expr_one_liner("a $").unwrap(), tail_empty);

  // inside what follows `$` no further `$` is written
  let nested = Cirru::List(vec![
    Cirru::leaf("a"),
    Cirru::List(vec![Cirru::leaf("b"), Cirru::List(vec![Cirru::leaf("c")])]),
  ]);
  assert_eq!(format_expr_oneliner(&nested).unwrap(), "a $ b (c)");
  assert_eq!(parse_expr_one_liner("a $ b (c)").unwrap(), nested);

  // a list that is first, or that follows a list with items, keeps its parentheses
  let first = Cirru::List(vec![Cirru::List(vec![Cirru::leaf("a")])]);
  assert_eq!(format_expr_oneliner(&first).unwrap(), "(a)");
  let after_list = Cirru::List(vec![
    Cirru::leaf("a"),
    Cirru::List(vec![Cirru::leaf("b")]),
    Cirru::List(vec![Cirru::leaf("c")]),
  ]);
  assert_eq!(format_expr_oneliner(&after_list).unwrap(), "a (b) (c)");
  assert_eq!(format_expr_oneliner(&Cirru::List(vec![])).unwrap(), "");
}

#[test]
fn one_liner_rejects_a_leaf() {
  assert_eq!(
    format_expr_oneliner(&Cirru::leaf("a")),
    Err(String::from("expected an expression, got a leaf"))
  );
}

#[test]
fn one_liner_has_no_line_breaks() {
  let tree = Cirru::List(vec![Cirru::leaf("a\nb"), Cirru::leaf("c d")]);
  assert_eq!(format_expr_oneliner(&tree).unwrap(), "\"a\\nb\" \"c d\"");
}
