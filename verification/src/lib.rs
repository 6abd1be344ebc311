//! A parser and writer for Cirru, an indentation-based notation of nested lists.
//!
//! Cirru code is parsed in stages: the lexer turns characters into tokens,
//! the indentation resolver turns the indentation of the lines into
//! parentheses, the tree builder builds the nested lists, and two rewrites
//! resolve `$` and `,`. The writer lays trees out as Cirru code again.
pub mod builder;
pub mod error;
pub mod indent;
pub mod laws;
pub mod lexer;
pub mod parser;
pub mod primes;
pub mod proofs;
pub mod s_expr;
pub mod text;
pub mod tree;
pub mod writer;

pub use builder::build_exprs;
pub use error::{extract_snippet, CirruError, CirruErrorKind, ErrorContext, SourcePos};
pub use indent::resolve_indentations;
pub use lexer::{lex, parse_indentation};
pub use parser::{cirru_to_lisp, parse, parse_expr_one_liner};
pub use primes::{escape_cirru_leaf, Cirru, CirruLexItem, CirruLexItemList, CirruLexState};
pub use s_expr::{ends_with_newline, format_expr, format_to_lisp, gen_newline};
pub use tree::{resolve_comma, resolve_dollar};
pub use writer::{format_expr_one_liner, format_expr_oneliner, CirruWriterOptions};

use vstd::prelude::*;

verus! {

/// Writes the top-level expressions `xs` as Cirru code. Each must be a
/// list; a leaf at the top level is an error. With `use_inline`, simple
/// expressions that follow one another share a line.
pub fn format(xs: &[Cirru], options: CirruWriterOptions) -> (res: Result<String, String>)
    ensures
        match writer::format_spec(primes::forest(xs@), options.use_inline) {
            Ok(text) => res matches Ok(s) && s@ == text,
            Err(msg) => res matches Err(m) && m@ == msg,
        },
{
    writer::generate_statements(xs, options)
}

} // verus!
