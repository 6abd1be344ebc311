//! Laws that relate the parts of the library to one another.
use crate::error::KindView;
use crate::lexer::{lemma_run_stuck, lex_run, lex_spec, start_cursor, LexFailure};
use crate::parser::{one_liner_spec, parse_spec, ParseFailure};
use crate::primes::{quoted, CirruLexState, Token, Tree};
use crate::proofs::desugar::{
    lemma_comma_list_plain, lemma_dollar_each_plain, lemma_fold_dollar_none,
    lemma_fold_dollar_wrap, sugar_free, sugar_free_items,
};
use crate::proofs::document::{
    all_writable, first_reader, lemma_read_document, lemma_resolve_statements,
};
use crate::proofs::frames::{close_frames, close_one, collapse_to};
use crate::proofs::lexing::{all_lexable, all_lexable_items, lemma_lex_quoted, lemma_lex_spec_from};
use crate::proofs::nesting::{lemma_adjust_open, lemma_open_frames_more};
use crate::proofs::reading::{
    lemma_rel_break, lemma_rel_end, lemma_rel_items, lemma_rel_start, put_break, put_items,
};
use crate::proofs::restore::{
    lemma_comma_concat, lemma_comma_not_dollar, lemma_comma_one, lemma_resolved_plain, top_plain,
};
use crate::proofs::roundtrip::{
    lemma_oneliner_is_items, lemma_oneliner_items_lexable, lemma_oneliner_items_resolve,
    lemma_read_one_line, oneliner_items,
};
use crate::tree::{
    comma_list, dollar_each, dollar_list, dollar_tree, fold_dollar, is_comma, is_dollar,
};
use crate::writer::{
    all_lists, format_spec, items_text, leaf_text, newline_text, oneliner_text, statements_text,
};
use vstd::prelude::*;

verus! {

/// The lexer is at the start of a line, with no space counted, wherever a
/// line starts and the text before it has no error.
pub proof fn lemma_line_start(code: Seq<char>, start: int)
    requires
        0 <= start <= code.len(),
        start == 0 || code[start - 1] == '\n',
        lex_run(code, start) is Ok,
    ensures
        lex_run(code, start) matches Ok(cur) && cur.state == CirruLexState::Indent && cur.width
            == 0,
{
    if start > 0 {
        assert(lex_run(code, start - 1) is Ok);
    }
}

/// While the lexer reads the spaces at the start of a line, it counts them.
proof fn lemma_counts_spaces(code: Seq<char>, start: int, k: nat)
    requires
        0 <= start,
        start + k <= code.len(),
        lex_run(code, start) matches Ok(cur) && cur.state == CirruLexState::Indent && cur.width
            == 0,
        forall|i: int| start <= i < start + k ==> code[i] == ' ',
    ensures
        lex_run(code, start + k) matches Ok(cur) && cur.state == CirruLexState::Indent && cur.width
            == k,
    decreases k,
{
    if k > 0 {
        lemma_counts_spaces(code, start, (k - 1) as nat);
    }
}

/// Odd indentation always fails. Take a line of the code that starts at
/// `start`, where the text before the line has no error. If the line
/// begins with an odd number `width` of spaces, and the character after
/// them is no line break (the line is not blank) and no closing
/// parenthesis (which is an error of its own at the start of a line),
/// then lexing fails at that character with `InvalidIndentation`, and so
/// does parsing.
pub proof fn law_odd_indentation_fails(code: Seq<char>, start: int, width: nat)
    requires
        0 <= start,
        start + width < code.len(),
        start == 0 || code[start - 1] == '\n',
        lex_run(code, start) is Ok,
        forall|i: int| start <= i < start + width ==> code[i] == ' ',
        width % 2 == 1,
        code[start + width] != ' ',
        code[start + width] != '\n',
        code[start + width] != ')',
    ensures
        lex_spec(code) == Err::<Seq<crate::primes::Token>, LexFailure>(
            LexFailure {
                kind: KindView::InvalidIndentation((width % 256) as u8),
                index: start + width,
                state: CirruLexState::Indent,
            },
        ),
        parse_spec(code) matches Err(ParseFailure::Lex(f)) && f.kind
            == KindView::InvalidIndentation((width % 256) as u8),
{
    lemma_line_start(code, start);
    lemma_counts_spaces(code, start, width);
    let n = start + width;
    assert(lex_run(code, n + 1) is Err);
    lemma_run_stuck(code, n + 1, code.len() as int);
}

/// Inside a string, characters that are no quote, backslash or line
/// break are added to the string.
proof fn lemma_stays_in_string(code: Seq<char>, start: int, k: nat)
    requires
        0 <= start,
        start + k <= code.len(),
        lex_run(code, start) matches Ok(cur) && cur.state == CirruLexState::Str,
        forall|i: int|
            start <= i < start + k ==> code[i] != '"' && code[i] != '\\' && code[i] != '\n',
    ensures
        lex_run(code, start + k) matches Ok(cur) && cur.state == CirruLexState::Str,
    decreases k,
{
    if k > 0 {
        lemma_stays_in_string(code, start, (k - 1) as nat);
    }
}

/// An unterminated string fails. If the lexer is inside a string after
/// the first `start` characters of the code, and no quote, backslash or
/// line break follows, lexing fails at the end of the code with
/// `UnexpectedEof`, and so does parsing.
pub proof fn law_unterminated_string_fails(code: Seq<char>, start: int)
    requires
        0 <= start <= code.len(),
        lex_run(code, start) matches Ok(cur) && cur.state == CirruLexState::Str,
        forall|i: int|
            start <= i < code.len() ==> code[i] != '"' && code[i] != '\\' && code[i] != '\n',
    ensures
        lex_spec(code) == Err::<Seq<Token>, LexFailure>(
            LexFailure {
                kind: KindView::UnexpectedEof,
                index: code.len() - 1,
                state: CirruLexState::Str,
            },
        ),
        parse_spec(code) matches Err(ParseFailure::Lex(f)) && f.kind == KindView::UnexpectedEof,
{
    lemma_stays_in_string(code, start, (code.len() - start) as nat);
}

/// A line break inside a string fails. If the lexer is inside a string
/// after the first `start` characters of the code, and a line break
/// follows before any quote or backslash, lexing fails at the line break
/// with `UnexpectedNewlineInString`, and so does parsing.
pub proof fn law_newline_in_string_fails(code: Seq<char>, start: int, at: int)
    requires
        0 <= start <= at < code.len(),
        lex_run(code, start) matches Ok(cur) && cur.state == CirruLexState::Str,
        forall|i: int| start <= i < at ==> code[i] != '"' && code[i] != '\\' && code[i] != '\n',
        code[at] == '\n',
    ensures
        lex_spec(code) == Err::<Seq<Token>, LexFailure>(
            LexFailure {
                kind: KindView::UnexpectedNewlineInString,
                index: at,
                state: CirruLexState::Str,
            },
        ),
        parse_spec(code) matches Err(ParseFailure::Lex(f)) && f.kind
            == KindView::UnexpectedNewlineInString,
{
    lemma_stays_in_string(code, start, (at - start) as nat);
    assert(lex_run(code, at + 1) is Err);
    lemma_run_stuck(code, at + 1, code.len() as int);
}

/// Escapes are read back. Any text, written as a quoted string, is read
/// by the lexer as one string token that holds the text.
pub proof fn law_quoted_text_is_read_back(s: Seq<char>)
    ensures
        lex_spec(quoted(s)) == Ok::<Seq<Token>, LexFailure>(
            seq![Token::Indent(0), Token::Str(s)],
        ),
{
    let start = start_cursor();
    lemma_lex_quoted(start, s);
    lemma_lex_spec_from(quoted(s));
    assert(Seq::<Token>::empty().push(Token::Indent(0)).push(Token::Str(s)) =~= seq![
        Token::Indent(0),
        Token::Str(s),
    ]);
}

/// A written leaf is read back. Any text but the empty one, written as
/// the writer writes a leaf, is read by the lexer as one string token
/// that holds the text.
pub proof fn law_written_leaf_is_read_back(s: Seq<char>)
    requires
        s.len() > 0,
    ensures
        lex_spec(leaf_text(s)) == Ok::<Seq<Token>, LexFailure>(
            seq![Token::Indent(0), Token::Str(s)],
        ),
{
    let start = start_cursor();
    crate::proofs::lexing::lemma_lex_leaf(start, s);
    lemma_lex_spec_from(leaf_text(s));
    assert(Seq::<Token>::empty().push(Token::Indent(0)).push(Token::Str(s)) =~= seq![
        Token::Indent(0),
        Token::Str(s),
    ]);
}

/// An expression written on one line is read back. Take a list with one
/// item at least, in which no leaf is empty and no leaf is `$` or `,`.
/// What `format_expr_oneliner` writes for it, `parse_expr_one_liner`
/// reads as the list itself.
pub proof fn law_one_liner_round_trip(xs: Seq<Tree>)
    requires
        xs.len() > 0,
        all_lexable_items(xs),
        sugar_free_items(xs),
    ensures
        one_liner_spec(oneliner_text(xs, xs.len() as int, false)) == Ok::<
            Tree,
            Result<ParseFailure, nat>,
        >(Tree::List(xs)),
{
    let text = oneliner_text(xs, xs.len() as int, false);
    let raw = oneliner_items(xs);
    lemma_oneliner_is_items(xs);
    lemma_oneliner_items_lexable(xs);
    lemma_read_one_line(raw);
    lemma_oneliner_items_resolve(xs);
    assert(parse_spec(text) == Ok::<Seq<Tree>, ParseFailure>(seq![Tree::List(xs)]));
}

/// What is written is read back. Take top-level expressions that are
/// lists with items, in which no leaf is empty or is `$` or `,`, in which
/// no list that the writer writes after `$` starts with an empty list,
/// and which the writer lays out without a line that is indented by more
/// than 127 levels. What `format` writes for them, with or without
/// `use_inline`, `parse` reads as the same expressions.
pub proof fn law_format_round_trip(xs: Seq<Tree>, use_inline: bool)
    requires
        all_writable(xs, use_inline),
    ensures
        format_spec(xs, use_inline) == Ok::<Seq<char>, Seq<char>>(
            statements_text(xs, use_inline),
        ),
        parse_spec(statements_text(xs, use_inline)) == Ok::<Seq<Tree>, ParseFailure>(xs),
{
    assert(all_lists(xs)) by {
        assert forall|i: int| 0 <= i < xs.len() implies #[trigger] xs[i] is List by {
            assert(crate::proofs::document::writable(xs[i], use_inline));
        }
    }
    lemma_read_document(xs, use_inline);
    lemma_resolve_statements(xs, xs.len() as int, use_inline);
    assert(xs.take(xs.len() as int) =~= xs);
}

/// Indentation is nesting. Take items `xs` on one line and items `ys`
/// on the next line, one level deeper; there is one at least of each,
/// and no leaf in them is empty. The two lines are parsed as the one
/// line that holds `xs` and then the list of `ys` in parentheses.
pub proof fn law_indentation_is_nesting(xs: Seq<Tree>, ys: Seq<Tree>)
    requires
        xs.len() > 0,
        ys.len() > 0,
        all_lexable_items(xs),
        all_lexable_items(ys),
    ensures
        parse_spec(items_text(xs) + newline_text(1) + items_text(ys)) == parse_spec(
            items_text(xs.push(Tree::List(ys))),
        ),
        parse_spec(items_text(xs.push(Tree::List(ys)))) is Ok,
{
    let both = xs.push(Tree::List(ys));
    // the two lines
    let r0 = first_reader();
    lemma_rel_start();
    lemma_rel_items(Seq::empty(), r0, xs);
    let r1 = put_items(r0, xs);
    let q1 = Seq::<char>::empty() + items_text(xs);
    assert(q1 =~= items_text(xs));
    lemma_rel_break(q1, r1, 1);
    let r2 = put_break(r1, 1);
    let q2 = q1 + newline_text(1);
    lemma_adjust_open(r1.nest, 1);
    lemma_open_frames_more(r1.nest.frames, 0);
    lemma_open_frames_more(r1.nest.frames, 1);
    lemma_rel_items(q2, r2, ys);
    let r3 = put_items(r2, ys);
    lemma_rel_end(q2 + items_text(ys), r3);
    let top = seq![Seq::<Tree>::empty() + xs];
    assert(r1.nest.frames =~= top);
    assert(r3.nest.frames =~= seq![xs, ys]) by {
        assert(Seq::<Tree>::empty() + xs =~= xs);
        assert(Seq::<Tree>::empty() + ys =~= ys);
    }
    assert(collapse_to(r3.nest.frames, 0) == close_one(r3.nest.frames)) by {
        assert(close_frames(close_one(r3.nest.frames), 0) == close_one(r3.nest.frames));
    }
    assert(close_one(r3.nest.frames) =~= seq![both]);
    assert(Seq::<Tree>::empty().push(Tree::List(both)) =~= seq![Tree::List(both)]);
    // the one line
    assert(all_lexable_items(both)) by {
        assert forall|i: int| 0 <= i < both.len() implies all_lexable(#[trigger] both[i]) by {
            if i < xs.len() {
                assert(both[i] == xs[i]);
            }
        }
    }
    lemma_read_one_line(both);
}

/// `$` is nesting. Take items `xs`, then `$`, then items `ys`, all on
/// one line, where no leaf is empty. The line is parsed as the line that
/// holds `xs` and then the list of `ys` in parentheses.
pub proof fn law_dollar_is_nesting(xs: Seq<Tree>, ys: Seq<Tree>)
    requires
        all_lexable_items(xs),
        all_lexable_items(ys),
    ensures
        parse_spec(items_text(xs + seq![Tree::Leaf(seq!['$'])] + ys)) == parse_spec(
            items_text(xs.push(Tree::List(ys))),
        ),
        parse_spec(items_text(xs.push(Tree::List(ys)))) is Ok,
{
    let dollar = Tree::Leaf(seq!['$']);
    let sugared = xs + seq![dollar] + ys;
    let plain = xs.push(Tree::List(ys));
    assert(all_lexable_items(sugared)) by {
        assert forall|i: int| 0 <= i < sugared.len() implies all_lexable(#[trigger] sugared[i]) by {
            if i < xs.len() {
                assert(sugared[i] == xs[i]);
            } else if i > xs.len() {
                assert(sugared[i] == ys[i - xs.len() - 1]);
            }
        }
    }
    assert(all_lexable_items(plain)) by {
        assert forall|i: int| 0 <= i < plain.len() implies all_lexable(#[trigger] plain[i]) by {
            if i < xs.len() {
                assert(plain[i] == xs[i]);
            }
        }
    }
    lemma_read_one_line(sugared);
    lemma_read_one_line(plain);
    // inside the items, `$` is resolved alike; at the level of the line, the
    // `$` takes what follows it
    let a = dollar_each(xs);
    let b = dollar_each(ys);
    assert(dollar_each(sugared) =~= a + seq![dollar] + b);
    assert(dollar_each(plain) =~= a.push(Tree::List(fold_dollar(b))));
    lemma_fold_dollar_wrap(a, b);
    assert(dollar_list(sugared) == dollar_list(plain));
    let s1 = seq![Tree::List(sugared)];
    let s2 = seq![Tree::List(plain)];
    assert(dollar_each(s1) =~= seq![Tree::List(dollar_list(sugared))]);
    assert(dollar_each(s2) =~= seq![Tree::List(dollar_list(plain))]);
}

/// `,` is splicing. Take items `xs`, then a list in parentheses that
/// holds `,` and the items `ys`, then items `zs`, all on one line, where
/// no leaf is empty or is `$` or `,` and there is one item at least in
/// `xs`, `ys` and `zs` together. The line is parsed as the line that
/// holds `xs`, `ys` and `zs` one after the other.
pub proof fn law_comma_is_splicing(xs: Seq<Tree>, ys: Seq<Tree>, zs: Seq<Tree>)
    requires
        xs.len() + ys.len() + zs.len() > 0,
        all_lexable_items(xs),
        all_lexable_items(ys),
        all_lexable_items(zs),
        sugar_free_items(xs),
        sugar_free_items(ys),
        sugar_free_items(zs),
    ensures
        parse_spec(
            items_text(xs + seq![Tree::List(seq![Tree::Leaf(seq![','])] + ys)] + zs),
        ) == parse_spec(items_text(xs + ys + zs)),
        parse_spec(items_text(xs + ys + zs)) == Ok::<Seq<Tree>, ParseFailure>(
            seq![Tree::List(xs + ys + zs)],
        ),
{
    let comma = Tree::Leaf(seq![',']);
    let inner = seq![comma] + ys;
    let marked = Tree::List(inner);
    let sugared = xs + seq![marked] + zs;
    let plain = xs + ys + zs;
    lemma_comma_not_dollar();
    assert(all_lexable(marked)) by {
        assert forall|i: int| 0 <= i < inner.len() implies all_lexable(#[trigger] inner[i]) by {
            if i > 0 {
                assert(inner[i] == ys[i - 1]);
            }
        }
    }
    assert(all_lexable_items(sugared)) by {
        assert forall|i: int| 0 <= i < sugared.len() implies all_lexable(#[trigger] sugared[i]) by {
            if i < xs.len() {
                assert(sugared[i] == xs[i]);
            } else if i > xs.len() {
                assert(sugared[i] == zs[i - xs.len() - 1]);
            }
        }
    }
    assert(all_lexable_items(plain) && sugar_free_items(plain)) by {
        assert forall|i: int| 0 <= i < plain.len() implies all_lexable(#[trigger] plain[i])
            && sugar_free(plain[i]) by {
            if i < xs.len() {
                assert(plain[i] == xs[i]);
            } else if i < xs.len() + ys.len() {
                assert(plain[i] == ys[i - xs.len()]);
            } else {
                assert(plain[i] == zs[i - xs.len() - ys.len()]);
            }
        }
    }
    lemma_read_one_line(sugared);
    lemma_read_one_line(plain);
    // the line without the mark stays as it is
    lemma_resolved_plain(Tree::List(plain));
    // `$` changes nothing in the line with the mark
    lemma_dollar_each_plain(xs);
    lemma_dollar_each_plain(ys);
    lemma_dollar_each_plain(zs);
    assert(dollar_each(inner) =~= inner);
    assert(top_plain(inner)) by {
        assert forall|i: int| 0 <= i < inner.len() implies !is_dollar(#[trigger] inner[i]) by {
            if i > 0 {
                assert(inner[i] == ys[i - 1]);
                assert(sugar_free(ys[i - 1]));
            }
        }
    }
    lemma_fold_dollar_none(inner);
    assert(dollar_tree(marked) == marked);
    assert(dollar_each(sugared) =~= sugared) by {
        assert forall|i: int| 0 <= i < sugared.len() implies dollar_each(sugared)[i]
            == sugared[i] by {
            if i < xs.len() {
                assert(sugared[i] == xs[i]);
                assert(dollar_each(xs)[i] == xs[i]);
            } else if i > xs.len() {
                let j = i - xs.len() - 1;
                assert(sugared[i] == zs[j]);
                assert(dollar_each(zs)[j] == zs[j]);
            }
        }
    }
    assert(top_plain(sugared)) by {
        assert forall|i: int| 0 <= i < sugared.len() implies !is_dollar(#[trigger] sugared[i]) by {
            if i < xs.len() {
                assert(sugared[i] == xs[i]);
                assert(sugar_free(xs[i]));
            } else if i > xs.len() {
                assert(sugared[i] == zs[i - xs.len() - 1]);
                assert(sugar_free(zs[i - xs.len() - 1]));
            }
        }
    }
    lemma_fold_dollar_none(sugared);
    let outer = seq![Tree::List(sugared)];
    assert(dollar_each(outer) =~= outer);
    assert(top_plain(outer)) by {
        assert forall|i: int| 0 <= i < outer.len() implies !is_dollar(#[trigger] outer[i]) by {}
    }
    lemma_fold_dollar_none(outer);
    // the list with the mark gives way to its items
    lemma_comma_one(Tree::List(sugared));
    assert(!is_comma(sugared[0])) by {
        if xs.len() > 0 {
            assert(sugared[0] == xs[0]);
            assert(sugar_free(xs[0]));
        }
    }
    lemma_comma_concat(xs + seq![marked], zs);
    lemma_comma_concat(xs, seq![marked]);
    lemma_comma_one(marked);
    lemma_comma_list_plain(xs);
    lemma_comma_list_plain(ys);
    lemma_comma_list_plain(zs);
    assert(inner.drop_first() =~= ys);
    assert(comma_list(sugared) =~= plain);
}

} // verus!
