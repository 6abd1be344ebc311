use cirru_parser::writer::{
  generate_empty_expr, generate_inline_expr, generate_leaf, generate_statement_oneliner, get_node_kind,
  is_a_digit, is_a_letter, is_boxed, is_char_allowed, is_simple_char, is_simple_expr, push_spaces,
  render_newline, WriterNode,
};
use cirru_parser::{escape_cirru_leaf, parse, Cirru, CirruWriterOptions};

fn leaf_lists(rows: &[&[&str]]) -> Vec<Cirru> {
  rows.iter().map(|row| Cirru::from(*row)).collect()
}

#[test]
fn write_demo() -> Result<(), String> {
  let writer_options = CirruWriterOptions { use_inline: false };

  let xs = leaf_lists(&[&["a"], &["b"]]);
  assert_eq!("\na\n\nb\n", cirru_parser::format(&xs, writer_options)?);

  let ys = leaf_lists(&[&["中文"], &["中文"]]);
  assert_eq!("\n\"中文\"\n\n\"中文\"\n", cirru_parser::format(&ys, writer_options)?);

  Ok(())
}

#[test]
fn leaves_escapeing() {
  assert_eq!("\"a\"", escape_cirru_leaf("a"));
  assert_eq!("\"a b\"", escape_cirru_leaf("a b"));
  assert_eq!("\"a!+-b\"", escape_cirru_leaf("a!+-b"));
  assert_eq!("\"a\\nb\"", escape_cirru_leaf("a\nb"));

  assert_eq!("\"中文\"", escape_cirru_leaf("中文"));
  assert_eq!("\"中文\\n\"", escape_cirru_leaf("中文\n"));
}

#[test]
fn escapes_all_five() {
  assert_eq!("\"\\n\\t\\\"\\\\\\'\"", escape_cirru_leaf("\n\t\"\\'"));
  assert_eq!("\"\r\"", escape_cirru_leaf("\r"));
  assert_eq!("\"\"", escape_cirru_leaf(""));
}

#[test]
fn write_rejects_a_leaf_at_top_level() {
  let xs = vec![Cirru::List(vec![Cirru::leaf("a")]), Cirru::leaf("b")];
  assert_eq!(
    cirru_parser::format(&xs, CirruWriterOptions { use_inline: false }),
    Err(String::from("expected an expression at top level"))
  );
  assert_eq!(cirru_parser::format(&[], CirruWriterOptions { use_inline: true }), Ok(String::new()));
}

#[test]
fn options_from_bool() {
  let options: CirruWriterOptions = true.into();
  assert!(options.use_inline);
  let options: CirruWriterOptions = false.into();
  assert!(!options.use_inline);
}

fn written(code: &str, use_inline: bool) -> String {
  let tree = parse(code).unwrap();
  cirru_parser::format(&tree, CirruWriterOptions { use_inline }).unwrap()
}

#[test]
fn write_layouts() {
  // leaves share a line
  assert_eq!(written("a b c", false), "\na b c\n");
  // a simple expression after a leaf stays on the line, the last one after `$`
  assert_eq!(written("a (b c) d", false), "\na (b c) d\n");
  assert_eq!(written("a (b c)", false), "\na $ b c\n");
  assert_eq!(written("a ()", false), "\na $\n");
  assert_eq!(written("a () b", false), "\na () b\n");
  // a first item that is a list is written in parentheses
  assert_eq!(written("(a b) c", false), "\n(a b) c\n");
  // simple expressions after one another break to lines of their own
  assert_eq!(written("a (b c) (d e) (f g)", false), "\na (b c)\n  d e\n  f g\n");
  // a list that holds lists is indented
  assert_eq!(written("a (b (c d))", false), "\na $ b (c d)\n");
  assert_eq!(written("a (b (c d)) e", false), "\na\n  b $ c d\n  , e\n");
  assert_eq!(written("a (b (c d)) e f", false), "\na\n  b $ c d\n  , e f\n");
  // leaves that need quotes get them
  assert_eq!(written("a \"b c\" \"d\\n\"", false), "\na \"b c\" \"d\\n\"\n");
  // top-level expressions are separated by an empty line
  assert_eq!(written("a b\nc d", false), "\na b\n\nc d\n");
}

#[test]
fn write_layouts_inline() {
  assert_eq!(written("a (b c) (d e) (f g)", true), "\na (b c) (d e) (f g)\n");
  assert_eq!(written("a (b c) (d e) f", true), "\na (b c) (d e) f\n");
  assert_eq!(written("a b c", true), "\na b c\n");
}

#[test]
fn a_boxed_expression() {
  // a list of lists only: after `$` each of its items gets a line of its own
  assert_eq!(written("a ((b c) (d e))", false), "\na $ \n  b c\n  d e\n");
  // a first item is written in parentheses; the leaf after it bends
  assert_eq!(written("((a b) (c d)) e", false), "\n((a b) (c d))\n  , e\n");
}

#[test]
fn deep_indentation() {
  assert_eq!(
    written("a (b (c (d (e f)) g) h)", false),
    "\na $ b\n  c\n    d $ e f\n    , g\n  , h\n"
  );
}

#[test]
fn writer_helpers() {
  assert!(is_a_digit('0') && is_a_digit('9') && !is_a_digit('a') && !is_a_digit('/'));
  assert!(is_a_letter('a') && is_a_letter('Z') && !is_a_letter('0') && !is_a_letter('['));
  assert!(is_simple_char('a') && is_simple_char('5') && !is_simple_char('-'));
  for c in "$-:<>[]{}*=+.,\\/!?~_@#&%^|;'aZ09".chars() {
    assert!(is_char_allowed(c));
  }
  for c in " \"()\n\t`中".chars() {
    assert!(!is_char_allowed(c));
  }
  assert_eq!(generate_leaf("a,b"), "a,b");
  assert_eq!(generate_leaf("a b"), "\"a b\"");
  assert_eq!(generate_leaf("a(b"), "\"a(b\"");
  assert_eq!(generate_leaf(""), "");
  assert_eq!(generate_empty_expr(), "()");
  assert_eq!(render_newline(0), "\n");
  assert_eq!(render_newline(3), "\n      ");
  let mut buf = String::from("x");
  push_spaces(&mut buf, 2);
  assert_eq!(buf, "x    ");

  let leaves = vec![Cirru::leaf("a"), Cirru::leaf("b c")];
  let lists = vec![Cirru::List(vec![]), Cirru::List(leaves.clone())];
  let mixed = vec![Cirru::leaf("a"), Cirru::List(leaves.clone())];
  assert!(is_simple_expr(&leaves) && !is_simple_expr(&lists) && !is_simple_expr(&mixed));
  assert!(is_boxed(&lists) && !is_boxed(&leaves) && !is_boxed(&mixed));
  assert!(is_simple_expr(&[]) && is_boxed(&[]));
  assert_eq!(get_node_kind(&Cirru::leaf("a")), WriterNode::Leaf);
  assert_eq!(get_node_kind(&Cirru::List(vec![])), WriterNode::Leaf);
  assert_eq!(get_node_kind(&Cirru::List(leaves.clone())), WriterNode::SimpleExpr);
  assert_eq!(get_node_kind(&Cirru::List(lists.clone())), WriterNode::BoxedExpr);
  assert_eq!(get_node_kind(&Cirru::List(mixed.clone())), WriterNode::Expr);
  assert_eq!(generate_inline_expr(&mixed), "(a (a \"b c\"))");
  assert_eq!(generate_inline_expr(&vec![]), "()");
  assert_eq!(generate_statement_oneliner(&mixed), "a $ a \"b c\"");
}
