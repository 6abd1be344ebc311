use cirru_parser::{parse, Cirru, CirruWriterOptions};

fn leaf(s: &str) -> Cirru {
  Cirru::leaf(s)
}

fn list(xs: Vec<Cirru>) -> Cirru {
  Cirru::List(xs)
}

fn sample_trees() -> Vec<Cirru> {
  vec![
    list(vec![leaf("a"), list(vec![list(vec![list(vec![])]), leaf("b")]), list(vec![])]),
    list(vec![list(vec![]), list(vec![list(vec![]), leaf("a")]), leaf("b"), list(vec![])]),
    list(vec![leaf("a")]),
    list(vec![leaf("a"), leaf("b"), leaf("c")]),
    list(vec![leaf("a"), list(vec![])]),
    list(vec![list(vec![]), leaf("a")]),
    list(vec![list(vec![])]),
    list(vec![leaf("a"), list(vec![leaf("b"), leaf("c")])]),
    list(vec![leaf("a"), list(vec![leaf("b"), leaf("c")]), leaf("d")]),
    list(vec![list(vec![leaf("a"), leaf("b")]), leaf("c")]),
    list(vec![list(vec![leaf("a"), leaf("b")]), list(vec![leaf("c"), leaf("d")])]),
    list(vec![
      leaf("a"),
      list(vec![leaf("b"), leaf("c")]),
      list(vec![leaf("d"), leaf("e")]),
      list(vec![leaf("f")]),
    ]),
    list(vec![leaf("a"), list(vec![leaf("b"), list(vec![leaf("c"), leaf("d")])]), leaf("e")]),
    list(vec![leaf("a"), list(vec![leaf("b"), list(vec![leaf("c"), leaf("d")])]), leaf("e"), leaf("f")]),
    list(vec![
      leaf("a"),
      list(vec![list(vec![leaf("b")]), list(vec![leaf("c")])]),
      leaf("d"),
      list(vec![leaf("e")]),
    ]),
    list(vec![
      leaf("defn"),
      leaf("fib"),
      list(vec![leaf("n")]),
      list(vec![
        leaf("if"),
        list(vec![leaf("<="), leaf("n"), leaf("2")]),
        leaf("1"),
        list(vec![
          leaf("+"),
          list(vec![leaf("fib"), list(vec![leaf("dec"), leaf("n")])]),
          list(vec![leaf("fib"), list(vec![leaf("-"), leaf("n"), leaf("2")])]),
        ]),
      ]),
    ]),
    list(vec![leaf("a b"), leaf("c\nd"), leaf("e\"f"), leaf("g\\h"), leaf("i'j"), leaf("k\tl")]),
    list(vec![leaf("中文"), leaf("(x)"), list(vec![leaf(" ")])]),
    list(vec![
      leaf("a"),
      list(vec![leaf("b"), list(vec![leaf("c"), list(vec![leaf("d"), list(vec![leaf("e")])])])]),
      list(vec![list(vec![list(vec![leaf("f")])])]),
      leaf("g"),
      list(vec![]),
      list(vec![leaf("h")]),
    ]),
  ]
}

#[test]
fn write_then_parse_gives_the_tree_back() {
  for use_inline in [false, true] {
    for tree in sample_trees() {
      let nodes = vec![tree];
      let text = cirru_parser::format(&nodes, CirruWriterOptions { use_inline }).unwrap();
      assert_eq!(parse(&text), Ok(nodes), "through {text:?}");
    }
  }
}

#[test]
fn write_then_parse_gives_all_top_level_trees_back() {
  for use_inline in [false, true] {
    let nodes = sample_trees();
    let text = cirru_parser::format(&nodes, CirruWriterOptions { use_inline }).unwrap();
    assert_eq!(parse(&text), Ok(nodes));
  }
}

#[test]
fn one_line_then_parse_gives_the_tree_back() {
  for tree in sample_trees() {
    let text = cirru_parser::format_expr_oneliner(&tree).unwrap();
    assert!(!text.contains('\n'));
    assert_eq!(cirru_parser::parse_expr_one_liner(&text), Ok(tree), "through {text:?}");
  }
}

#[test]
fn lexing_a_written_leaf_gives_it_back() {
  for text in ["a", "a b", "a\nb", "\"", "\\", "'", "\t", "a\\nb", "中文", "()", "$x", "a,b", "\r"] {
    let written = cirru_parser::writer::generate_leaf(text);
    assert_eq!(
      cirru_parser::lex(&written),
      Ok(vec![cirru_parser::CirruLexItem::Indent(0), cirru_parser::CirruLexItem::Str(String::from(text))])
    );
    let quoted = cirru_parser::escape_cirru_leaf(text);
    assert_eq!(
      cirru_parser::lex(&quoted),
      Ok(vec![cirru_parser::CirruLexItem::Indent(0), cirru_parser::CirruLexItem::Str(String::from(text))])
    );
  }
}

#[test]
fn a_tail_that_starts_with_an_empty_list_is_not_read_back() {
  // the empty list is written on a line of its own at the level of the `$`
  let nodes = vec![list(vec![leaf("a"), list(vec![list(vec![]), leaf("b")])])];
  let text = cirru_parser::format(&nodes, CirruWriterOptions { use_inline: false }).unwrap();
  assert_eq!(text, "\na $ \n() b\n");
  assert_eq!(
    parse(&text),
    Ok(vec![list(vec![leaf("a"), list(vec![])]), list(vec![list(vec![]), leaf("b")])])
  );
}

#[test]
fn leaves_that_are_sugar_are_not_read_back() {
  let dollar = vec![list(vec![leaf("a"), leaf("$"), leaf("b")])];
  let text = cirru_parser::format(&dollar, CirruWriterOptions { use_inline: false }).unwrap();
  assert_eq!(text, "\na $ b\n");
  assert_eq!(parse(&text), Ok(vec![list(vec![leaf("a"), list(vec![leaf("b")])])]));

  let comma = vec![list(vec![leaf("a"), leaf(","), leaf("b")])];
  let text = cirru_parser::format(&comma, CirruWriterOptions { use_inline: false }).unwrap();
  assert_eq!(text, "\na , b\n");
  assert_eq!(parse(&text), Ok(vec![list(vec![leaf("a"), leaf("b")])]));

  let empty = vec![list(vec![leaf("a"), leaf("")])];
  let text = cirru_parser::format(&empty, CirruWriterOptions { use_inline: false }).unwrap();
  assert_eq!(text, "\na \n");
  assert_eq!(parse(&text), Ok(vec![list(vec![leaf("a")])]));
}

#[test]
fn deep_indentation_is_read_back_up_to_127_levels() {
  // a chain of lists, each between two leaves in the one around it: the
  // innermost stands in parentheses, each of the others is one level deeper
  fn chain(depth: usize) -> Cirru {
    let mut node = list(vec![leaf("x"), leaf("y")]);
    for _ in 0..depth {
      node = list(vec![leaf("a"), node, leaf("b")]);
    }
    node
  }
  let fits = vec![chain(128)];
  let text = cirru_parser::format(&fits, CirruWriterOptions { use_inline: false }).unwrap();
  let widest = text.lines().map(|line| line.len() - line.trim_start().len()).max();
  assert_eq!(widest, Some(254));
  assert_eq!(parse(&text), Ok(fits));
  let too_deep = vec![chain(129)];
  let text = cirru_parser::format(&too_deep, CirruWriterOptions { use_inline: false }).unwrap();
  assert!(parse(&text) != Ok(too_deep));
}
