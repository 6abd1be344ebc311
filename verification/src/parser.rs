//! Parsing Cirru code: lexing, resolving indentation, building trees,
//! and resolving `$` and `,`.
use crate::builder::{build_exprs, build_spec};
use crate::error::{CirruError, CirruErrorKind, ErrorView, KindView};
use crate::indent::{resolve_indentations, resolve_spec};
use crate::lexer::{lex, lex_spec, reports, LexFailure};
use crate::primes::{forest, Cirru, Tree};
use crate::s_expr::{format_to_lisp, lisp_spec};
use crate::tree::{comma_list, dollar_list, resolve_comma, resolve_dollar};
use vstd::pervasive::unreached;
use vstd::prelude::*;

verus! {

/// Why parsing failed: in the lexer, at a place in the text, or in the
/// tree builder.
pub enum ParseFailure {
    Lex(LexFailure),
    Build(KindView),
}

/// The top-level expressions of the code `s`: its tokens, with the
/// indentation resolved, built into trees, with `$` resolved and then `,`.
pub open spec fn parse_spec(s: Seq<char>) -> Result<Seq<Tree>, ParseFailure> {
    match lex_spec(s) {
        Err(f) => Err(ParseFailure::Lex(f)),
        Ok(ts) => match build_spec(resolve_spec(ts)) {
            Err(k) => Err(ParseFailure::Build(k)),
            Ok(trees) => Ok(comma_list(dollar_list(trees))),
        },
    }
}

/// Whether the error `e` reports the failure `f` of parsing `s`: an error
/// of the lexer carries its place, an error of the builder none.
pub open spec fn reports_failure(e: ErrorView, s: Seq<char>, f: ParseFailure) -> bool {
    match f {
        ParseFailure::Lex(lf) => reports(e, s, lf),
        ParseFailure::Build(k) => e == (ErrorView { kind: k, context: None }),
    }
}

/// Parses Cirru code into its top-level expressions. Empty code has none.
/// The first error ends the parse.
pub fn parse(code: &str) -> (res: Result<Vec<Cirru>, CirruError>)
    ensures
        match parse_spec(code@) {
            Ok(trees) => res matches Ok(v) && forest(v@) == trees,
            Err(f) => res matches Err(e) && reports_failure(e@, code@, f),
        },
{
    let items = match lex(code) {
        Ok(items) => items,
        Err(e) => {
            return Err(e);
        },
    };
    let resolved = resolve_indentations(items.as_slice());
    let mut tree = match build_exprs(resolved.as_slice()) {
        Ok(tree) => tree,
        Err(e) => {
            return Err(e);
        },
    };
    resolve_dollar(&mut tree);
    resolve_comma(&mut tree);
    Ok(tree)
}

/// What `parse_expr_one_liner` returns for the code `s`: its one
/// expression, or the failure of parsing, or the count of expressions if
/// it is not one.
pub open spec fn one_liner_spec(s: Seq<char>) -> Result<Tree, Result<ParseFailure, nat>> {
    match parse_spec(s) {
        Err(f) => Err(Ok(f)),
        Ok(trees) => if trees.len() == 1 {
            Ok(trees[0])
        } else {
            Err(Err(trees.len()))
        },
    }
}

/// Parses code that holds exactly one top-level expression, and returns
/// it. Any other number of expressions is the error `WrongExprCount`.
pub fn parse_expr_one_liner(code: &str) -> (res: Result<Cirru, CirruError>)
    ensures
        match one_liner_spec(code@) {
            Ok(tree) => res matches Ok(node) && node@ == tree,
            Err(Ok(f)) => res matches Err(e) && reports_failure(e@, code@, f),
            Err(Err(n)) => res matches Err(e) && e@ == (ErrorView {
                kind: KindView::WrongExprCount { expected: 1, got: n as usize },
                context: None,
            }) && n <= usize::MAX,
        },
{
    let mut trees = match parse(code) {
        Ok(trees) => trees,
        Err(e) => {
            return Err(e);
        },
    };
    if trees.len() == 1 {
        match trees.pop() {
            Some(node) => Ok(node),
            None => unreached(),
        }
    } else {
        Err(CirruError::new(CirruErrorKind::WrongExprCount { expected: 1, got: trees.len() }))
    }
}

/// What `cirru_to_lisp` returns for the code `s`, where the code parses
/// and its trees can be written in Lisp.
pub open spec fn to_lisp_spec(s: Seq<char>) -> Option<Seq<char>> {
    match parse_spec(s) {
        Err(_) => None,
        Ok(trees) => match lisp_spec(trees) {
            Err(_) => None,
            Ok(text) => Some(text),
        },
    }
}

/// Parses Cirru code and writes it in Lisp. The code must parse, and its
/// leaves must be such as can be written in Lisp.
pub fn cirru_to_lisp(code: &str) -> (res: String)
    requires
        to_lisp_spec(code@) is Some,
    ensures
        Some(res@) == to_lisp_spec(code@),
{
    match parse(code) {
        Ok(tree) => match format_to_lisp(tree.as_slice()) {
            Ok(s) => s,
            Err(_) => unreached(),
        },
        Err(_) => unreached(),
    }
}

} // verus!
