use cirru_parser::Cirru;

#[test]
fn primes_test_test_eq() {
  assert_eq!(Cirru::leaf("a"), Cirru::leaf("a"));
  assert_eq!(Cirru::leaf("a"), "a".into());
  assert_ne!(Cirru::leaf("b"), Cirru::leaf("a"));
  assert_ne!(Cirru::leaf("a"), Cirru::List(vec![Cirru::leaf("a")]),);
  assert_eq!(Cirru::List(vec![Cirru::leaf("a")]), Cirru::List(vec![Cirru::leaf("a")]),);
  assert_eq!(Cirru::List(vec![Cirru::leaf("a")]), (vec!["a"]).into());
}

#[test]
fn primes_test_test_fmt() {
  let a = Cirru::leaf("na");
  assert_eq!(a.to_string(), "na");

  let b = a.to_owned();
  let c = Cirru::List(vec![a, b]);
  assert_eq!(c.to_string(), "(na na)")
}

#[test]
fn primes_test_test_len() {
  assert_eq!(1, Cirru::leaf("1").len());
  assert_eq!(1, Cirru::List(vec![Cirru::leaf("1")]).len());
}

#[test]
fn displays_leaves_that_are_not_normal_in_quotes() {
  assert_eq!(Cirru::leaf("a b").to_string(), "\"a b\"");
  assert_eq!(Cirru::leaf("a\n").to_string(), "\"a\\n\"");
  assert_eq!(Cirru::leaf("").to_string(), "");
  let tree = Cirru::List(vec![Cirru::leaf("a"), Cirru::List(vec![]), Cirru::List(vec![Cirru::leaf("b c")])]);
  assert_eq!(tree.to_string(), "(a () (\"b c\"))");
}

#[test]
fn node_predicates() {
  assert!(Cirru::leaf("").is_empty());
  assert!(!Cirru::leaf("a").is_empty());
  assert!(Cirru::List(vec![]).is_empty());
  assert!(!Cirru::List(vec![Cirru::leaf("")]).is_empty());

  assert_eq!(Cirru::leaf("中文").len(), 6);
  assert_eq!(Cirru::List(vec![]).len(), 0);

  assert!(Cirru::leaf("a").eq_leaf("a"));
  assert!(!Cirru::leaf("a").eq_leaf("ab"));
  assert!(!Cirru::leaf("ab").eq_leaf("a"));
  assert!(!Cirru::leaf("a").eq_leaf("b"));
  assert!(!Cirru::List(vec![Cirru::leaf("a")]).eq_leaf("a"));

  assert!(!Cirru::leaf("a").is_nested());
  assert!(!Cirru::List(vec![Cirru::leaf("a"), Cirru::List(vec![])]).is_nested());
  assert!(Cirru::List(vec![Cirru::leaf("a"), Cirru::List(vec![Cirru::leaf("b")])]).is_nested());

  assert!(Cirru::leaf(";").is_comment());
  assert!(Cirru::leaf(";;").is_comment());
  assert!(!Cirru::leaf(";;;").is_comment());
  assert!(!Cirru::leaf("a").is_comment());
  assert!(!Cirru::List(vec![Cirru::leaf(";")]).is_comment());
}

#[test]
fn nodes_from_values() {
  let from_string: Cirru = String::from("a").into();
  assert_eq!(from_string, Cirru::leaf("a"));
  let texts = ["a", "b"];
  let from_slice: Cirru = (&texts[..]).into();
  assert_eq!(from_slice, Cirru::List(vec![Cirru::leaf("a"), Cirru::leaf("b")]));
  let nodes = [Cirru::leaf("a"), Cirru::List(vec![Cirru::leaf("b")])];
  let from_nodes: Cirru = (&nodes[..]).into();
  assert_eq!(from_nodes, Cirru::List(nodes.to_vec()));
}

#[test]
fn clone_is_equal() {
  let tree = Cirru::List(vec![Cirru::leaf("a"), Cirru::List(vec![Cirru::leaf("b"), Cirru::List(vec![])])]);
  assert_eq!(tree.clone(), tree);
  let token = cirru_parser::CirruLexItem::Str(String::from("a"));
  assert_eq!(token.clone(), token);
}

#[test]
fn normal_strings() {
  assert!(cirru_parser::CirruLexItem::is_normal_str("a-b?!+*$@#%&_=|:.<>Z09"));
  assert!(cirru_parser::CirruLexItem::is_normal_str(""));
  assert!(!cirru_parser::CirruLexItem::is_normal_str("a b"));
  assert!(!cirru_parser::CirruLexItem::is_normal_str("a,b"));
  assert!(!cirru_parser::CirruLexItem::is_normal_str("中"));
}
