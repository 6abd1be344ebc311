use cirru_parser::CirruLexItem;
use cirru_parser::CirruLexItem::{Close, Indent, Open};
use cirru_parser::{lex, resolve_indentations};

#[test]
fn handle_indentation() -> Result<(), String> {
  assert_eq!(
    resolve_indentations(&lex("a\nb").map_err(|e| e.to_string())?),
    vec![Open, "a".into(), Close, Open, "b".into(), Close,]
  );
  assert_eq!(
    resolve_indentations(&lex("a\n  b\nc").map_err(|e| e.to_string())?),
    vec![Open, "a".into(), Open, "b".into(), Close, Close, Open, "c".into(), Close,]
  );
  assert_eq!(
    resolve_indentations(&lex("a\n  b c\nd").map_err(|e| e.to_string())?),
    vec![
      Open,
      "a".into(),
      Open,
      "b".into(),
      "c".into(),
      Close,
      Close,
      Open,
      "d".into(),
      Close,
    ]
  );
  assert_eq!(
    resolve_indentations(&lex("a\n    b c\n    d e\n  f").map_err(|e| e.to_string())?),
    vec![
      Open,
      "a".into(),
      Open,
      Open,
      "b".into(),
      "c".into(),
      Close,
      Open,
      "d".into(),
      "e".into(),
      Close,
      Close,
      Open,
      "f".into(),
      Close,
      Close,
    ]
  );
  Ok(())
}

#[test]
fn resolves_a_documented_example() {
  let tokens: Vec<CirruLexItem> = vec![Indent(0), "a".into(), Indent(1), "b".into()];
  let resolved = resolve_indentations(&tokens);
  assert_eq!(resolved, vec![Open, "a".into(), Open, "b".into(), Close, Close]);
}

#[test]
fn resolves_nothing_to_nothing() {
  assert_eq!(resolve_indentations(&[]), vec![]);
  // a first line at level 0 emits nothing by itself
  assert_eq!(resolve_indentations(&[Indent(0)]), vec![]);
}

#[test]
fn deeper_first_line_opens_lists() {
  let tokens: Vec<CirruLexItem> = vec![Indent(2), "a".into()];
  assert_eq!(resolve_indentations(&tokens), vec![Open, Open, Open, "a".into(), Close, Close, Close]);
}

#[test]
fn shallower_line_closes_lists() {
  let tokens: Vec<CirruLexItem> = vec![Indent(0), "a".into(), Indent(2), "b".into(), Indent(0), "c".into()];
  assert_eq!(
    resolve_indentations(&tokens),
    vec![Open, "a".into(), Open, Open, "b".into(), Close, Close, Close, Open, "c".into(), Close]
  );
}

#[test]
fn parentheses_pass_through() {
  let tokens: Vec<CirruLexItem> = vec![Indent(0), Open, "a".into(), Close];
  assert_eq!(resolve_indentations(&tokens), vec![Open, Open, "a".into(), Close, Close]);
}
