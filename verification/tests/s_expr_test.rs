use cirru_parser::{ends_with_newline, format_expr, format_to_lisp, gen_newline, parse, Cirru};

#[test]
fn format_tests() -> Result<(), String> {
  assert_eq!(
    Cirru::List(vec![Cirru::List(vec![Cirru::leaf("a"), Cirru::leaf("b"),])]).to_lisp()?,
    String::from("\n(a b)\n")
  );

  assert_eq!(
    Cirru::List(vec![Cirru::List(vec![
      "a".into(),
      "b".into(),
      Cirru::List(vec![Cirru::leaf("c"), Cirru::leaf("d"),])
    ])])
    .to_lisp()?,
    String::from("\n(a b (c d))\n")
  );

  assert_eq!(
    Cirru::List(vec![Cirru::List(vec![
      "a".into(),
      "b".into(),
      Cirru::List(vec!["c".into(), "d".into(), Cirru::List(vec![Cirru::leaf("e"), Cirru::leaf("f"),])])
    ])])
    .to_lisp()?,
    String::from("\n(a b\n  (c d (e f)))\n")
  );

  assert_eq!(
    Cirru::List(vec![Cirru::List(vec![Cirru::leaf("a"), Cirru::leaf("|b"),])]).to_lisp()?,
    String::from("\n(a \"b\")\n")
  );

  assert_eq!(
    Cirru::List(vec![Cirru::List(vec![Cirru::leaf("a"), Cirru::leaf("|b c"),])]).to_lisp()?,
    String::from("\n(a \"b c\")\n")
  );

  Ok(())
}

const COMMENT_1: &str = r#"
(a b
  ;; d
  )
"#;
const COMMENT_2: &str = r#"
(a b
  ;; d
  (e f))
"#;

#[test]
fn comment_tests() -> Result<(), String> {
  assert_eq!(
    Cirru::List(vec![Cirru::List(vec![
      Cirru::leaf("a"),
      Cirru::leaf("b"),
      Cirru::List(vec![Cirru::leaf(";"), Cirru::leaf("d"),])
    ])])
    .to_lisp()?,
    String::from(COMMENT_1)
  );

  assert_eq!(
    Cirru::List(vec![Cirru::List(vec![
      Cirru::leaf("a"),
      Cirru::leaf("b"),
      Cirru::List(vec![Cirru::leaf(";"), Cirru::leaf("d"),]),
      Cirru::List(vec![Cirru::leaf("e"), Cirru::leaf("f"),])
    ])])
    .to_lisp()?,
    String::from(COMMENT_2)
  );

  Ok(())
}

const SIMPLE_CODE: &str = r#"
(func $get_16 (result i32) (i32.const 16))
"#;

const BIGGER_CODE_CIRRU: &str = r#"
func $sum_struct_create
  param $sum_struct_ptr i32
  param $var$a i32
  param $var$b i32
  ;; "c// sum_struct_ptr->a = a;"

  i32.store
    get_local $sum_struct_ptr
    get_local $var$a

  ;; "c// sum_struct_ptr->b = b;"
  i32.store offset=4
    get_local $sum_struct_ptr
    get_local $var$b
"#;

const BIGGER_CODE: &str = r#"
(func $sum_struct_create (param $sum_struct_ptr i32) (param $var$a i32) (param $var$b i32)
  ;; "c// sum_struct_ptr->a = a;"
  (i32.store (get_local $sum_struct_ptr) (get_local $var$a))
  ;; "c// sum_struct_ptr->b = b;"
  (i32.store offset=4 (get_local $sum_struct_ptr) (get_local $var$b)))
"#;

#[test]
fn format_wast_tests() -> Result<(), String> {
  assert_eq!(
    Cirru::List(vec![Cirru::List(vec![
      Cirru::leaf("func"),
      Cirru::leaf("$get_16"),
      vec![Cirru::leaf("result"), "i32".into()].into(),
      Cirru::List(vec![Cirru::leaf("i32.const"), Cirru::leaf("16"),]),
    ])])
    .to_lisp()?,
    String::from(SIMPLE_CODE)
  );

  assert_eq!(Cirru::List(parse(BIGGER_CODE_CIRRU)?).to_lisp()?, String::from(BIGGER_CODE));

  Ok(())
}

#[test]
fn lisp_of_a_leaf_is_an_error() {
  assert_eq!(
    Cirru::leaf("a b").to_lisp(),
    Err(String::from("expected list to convert to Lisp, got \"a b\""))
  );
}

#[test]
fn lisp_leaves() {
  assert_eq!(format_expr(&Cirru::leaf("abc"), 0), Ok(String::from("abc")));
  assert_eq!(format_expr(&Cirru::leaf(""), 0), Err(String::from("empty string is invalid")));
  assert_eq!(format_expr(&Cirru::leaf("a b"), 0), Err(String::from("bad token content: a b")));
  assert_eq!(format_expr(&Cirru::leaf("a\nb"), 0), Err(String::from("bad token content: a\nb")));
  assert_eq!(format_expr(&Cirru::leaf("a\"b"), 0), Err(String::from("bad token content: a\"b")));
  assert_eq!(format_expr(&Cirru::leaf("|"), 3), Ok(String::from("\"\"")));
  assert_eq!(format_expr(&Cirru::leaf("\"a b"), 0), Ok(String::from("\"a b\"")));
  assert_eq!(
    format_expr(&Cirru::leaf("|a\t\r\n'\"\\~ "), 0),
    Ok(String::from("\"a\\t\\r\\n\\'\\\"\\\\~ \""))
  );
  assert_eq!(
    format_expr(&Cirru::leaf("|\u{0}\u{7f}é中\u{1F600}"), 0),
    Ok(String::from("\"\\u{0}\\u{7f}\\u{e9}\\u{4e2d}\\u{1f600}\""))
  );
}

#[test]
fn lisp_errors_come_from_the_first_bad_leaf() {
  let tree = vec![Cirru::List(vec![Cirru::leaf("a"), Cirru::leaf("b c"), Cirru::leaf("")])];
  assert_eq!(format_to_lisp(&tree), Err(String::from("bad token content: b c")));
  let nested = vec![Cirru::List(vec![Cirru::List(vec![Cirru::leaf("")]), Cirru::leaf("b c")])];
  assert_eq!(format_to_lisp(&nested), Err(String::from("empty string is invalid")));
  assert_eq!(format_to_lisp(&[Cirru::leaf("")]), Err(String::from("empty string is invalid")));
}

#[test]
fn lisp_of_nothing() {
  assert_eq!(format_to_lisp(&[]), Ok(String::from("\n")));
  assert_eq!(format_to_lisp(&[Cirru::List(vec![])]), Ok(String::from("\n()\n")));
  assert_eq!(format_to_lisp(&[Cirru::leaf("a"), Cirru::leaf("b")]), Ok(String::from("\na\nb\n")));
}

#[test]
fn lisp_indents_by_level() {
  let node = Cirru::List(vec![
    Cirru::leaf("a"),
    Cirru::List(vec![Cirru::leaf("b"), Cirru::List(vec![Cirru::leaf("c")])]),
  ]);
  assert_eq!(format_expr(&node, 0), Ok(String::from("(a\n  (b (c)))")));
  assert_eq!(format_expr(&node, 2), Ok(String::from("(a\n      (b (c)))")));
  let comment = Cirru::List(vec![Cirru::leaf(";;"), Cirru::leaf("x y"), Cirru::List(vec![Cirru::leaf("z")])]);
  assert_eq!(format_expr(&comment, 1), Ok(String::from("\n  ;; \"x y\" (z)\n  ")));
  let bare = Cirru::List(vec![Cirru::leaf(";")]);
  assert_eq!(format_expr(&bare, 1), Ok(String::from("\n  ;;\n  ")));
}

#[test]
fn newline_helpers() {
  assert_eq!(gen_newline(0), "\n");
  assert_eq!(gen_newline(2), "\n    ");
  // true wherever the text holds a line break
  assert!(ends_with_newline("a\n"));
  assert!(ends_with_newline("a\nb"));
  assert!(!ends_with_newline("abc"));
  assert!(!ends_with_newline(""));
}

#[test]
fn code_to_lisp() {
  assert_eq!(cirru_parser::cirru_to_lisp("a b\n  c d"), "\n(a b (c d))\n");
  assert_eq!(cirru_parser::cirru_to_lisp(""), "\n");
}
