//! How the parser reads indented code piece by piece: an item, a space,
//! or a line break with the indentation of the next line.
use crate::builder::build_spec;
use crate::error::KindView;
use crate::indent::resolve_spec;
use crate::lexer::{
    cursor_at, indent_token, lex_finish, lex_spec, lex_step, start_cursor, LexCursor,
};
use crate::primes::{CirruLexState, Token, Tree};
use crate::proofs::frames::{
    add_item, adjust, collapse_to, holds, lemma_holds_end, lemma_holds_indent, lemma_holds_item,
    lemma_holds_start, Nest,
};
use crate::proofs::lexing::{
    after_item, all_lexable, all_lexable_items, closed, lemma_lex_from_concat, lemma_lex_from_one,
    lemma_lex_node, lemma_lex_separator, lemma_lex_spec_from, lex_from,
};
use crate::text::repeat;
use crate::writer::{items_text, newline_text, node_text};
use vstd::prelude::*;

verus! {

/// What was read last.
pub enum Gap {
    /// A line break and the indentation of a line at this level.
    Line(nat),
    /// A space after an item.
    Space,
    /// An item.
    Item,
}

/// The state of the parser between two pieces of the code.
pub struct Reader {
    pub gap: Gap,
    pub nest: Nest,
}

/// Whether the cursor of the lexer is where `gap` says.
pub open spec fn gap_ok(cur: LexCursor, gap: Gap) -> bool {
    match gap {
        Gap::Line(level) => cur.state == CirruLexState::Indent && cur.width == 2 * level && level
            < 128,
        Gap::Space => cur.state == CirruLexState::Space,
        Gap::Item => after_item(cur),
    }
}

/// Whether `r` is the state of the parser after the text `p`.
#[verifier::opaque]
pub open spec fn rel(p: Seq<char>, r: Reader) -> bool {
    lex_from(start_cursor(), p) matches Ok(cur) && gap_ok(cur, r.gap) && holds(closed(cur), r.nest)
}

/// The state after an item.
pub open spec fn put_item(r: Reader, t: Tree) -> Reader {
    Reader {
        gap: Gap::Item,
        nest: match r.gap {
            Gap::Line(level) => add_item(adjust(r.nest, level), t),
            _ => add_item(r.nest, t),
        },
    }
}

/// The state after a space.
pub open spec fn put_space(r: Reader) -> Reader {
    Reader { gap: Gap::Space, ..r }
}

/// The state after a line break and the indentation of level `level`.
pub open spec fn put_break(r: Reader, level: nat) -> Reader {
    Reader { gap: Gap::Line(level), ..r }
}

/// Before any text, the parser is at the start of a line at level 0.
pub proof fn lemma_rel_start()
    ensures
        rel(
            Seq::empty(),
            Reader {
                gap: Gap::Line(0),
                nest: Nest { done: Seq::empty(), frames: seq![Seq::empty()], started: false },
            },
        ),
{
    reveal(rel);
    lemma_holds_start();
}

/// Spaces at the start of a line are counted.
proof fn lemma_lex_spaces(cur: LexCursor, k: nat)
    requires
        cur.state == CirruLexState::Indent,
    ensures
        lex_from(cur, repeat(' ', k)) == Ok::<LexCursor, KindView>(
            LexCursor { width: cur.width + k, ..cur },
        ),
    decreases k,
{
    let s = repeat(' ', k);
    if k > 0 {
        assert(s.drop_last() =~= repeat(' ', (k - 1) as nat));
        lemma_lex_spaces(cur, (k - 1) as nat);
    }
}

/// Reading a line break and an indentation.
pub proof fn lemma_rel_break(p: Seq<char>, r: Reader, level: nat)
    requires
        rel(p, r),
        level < 128,
    ensures
        rel(p + newline_text(level), put_break(r, level)),
{
    reveal(rel);
    let cur = lex_from(start_cursor(), p)->Ok_0;
    let nl = seq!['\n'];
    let spaces = repeat(' ', 2 * level);
    lemma_lex_from_concat(start_cursor(), p, newline_text(level));
    lemma_lex_from_concat(cur, nl, spaces);
    lemma_lex_from_one(cur, '\n');
    let mid = cursor_at(CirruLexState::Indent, closed(cur));
    assert(lex_step(cur, '\n') == Ok::<LexCursor, KindView>(mid)) by {
        if after_item(cur) {
            lemma_lex_separator(cur, '\n');
        }
    }
    lemma_lex_spaces(mid, 2 * level);
}

/// Reading a space after an item.
pub proof fn lemma_rel_space(p: Seq<char>, r: Reader)
    requires
        rel(p, r),
        r.gap is Item || r.gap is Space,
    ensures
        rel(p + seq![' '], put_space(r)),
{
    reveal(rel);
    let cur = lex_from(start_cursor(), p)->Ok_0;
    lemma_lex_from_concat(start_cursor(), p, seq![' ']);
    lemma_lex_from_one(cur, ' ');
    lemma_lex_separator(cur, ' ');
}

/// Reading an item after a space or at the start of a line.
pub proof fn lemma_rel_item(p: Seq<char>, r: Reader, t: Tree)
    requires
        rel(p, r),
        r.gap is Line || r.gap is Space,
        all_lexable(t),
    ensures
        rel(p + node_text(t), put_item(r, t)),
{
    reveal(rel);
    let cur = lex_from(start_cursor(), p)->Ok_0;
    lemma_lex_from_concat(start_cursor(), p, node_text(t));
    match r.gap {
        Gap::Line(level) => {
            assert(indent_token(cur.width) == Ok::<Token, KindView>(Token::Indent(level as u8))) by {
                assert((2 * level) % 256 == 2 * level);
                assert(((2 * level) as u8) / 2 == level);
            }
            lemma_lex_node(cur, t);
            lemma_holds_indent(cur.acc, r.nest, level as u8);
            lemma_holds_item(cur.acc.push(Token::Indent(level as u8)), adjust(r.nest, level), t);
        },
        _ => {
            lemma_lex_node(cur, t);
            lemma_holds_item(cur.acc, r.nest, t);
        },
    }
}

/// At the end of the text, the expressions are those that are done and
/// the outermost open list with all the others inside it.
pub proof fn lemma_rel_end(p: Seq<char>, r: Reader)
    requires
        rel(p, r),
        r.nest.started,
    ensures
        lex_spec(p) matches Ok(ts) && build_spec(resolve_spec(ts)) == Ok::<Seq<Tree>, KindView>(
            r.nest.done.push(Tree::List(collapse_to(r.nest.frames, 0)[0])),
        ),
{
    reveal(rel);
    let cur = lex_from(start_cursor(), p)->Ok_0;
    assert(lex_finish(cur) == Ok::<Seq<Token>, KindView>(closed(cur)));
    lemma_lex_spec_from(p);
    lemma_holds_end(closed(cur), r.nest);
}

/// The lists with the items `xs` added to the current line.
pub open spec fn add_items(n: Nest, xs: Seq<Tree>) -> Nest {
    Nest { frames: n.frames.drop_last().push(n.frames.last() + xs), started: true, ..n }
}

/// The state after the items `xs`, of which there is one at least, with
/// spaces between them.
pub open spec fn put_items(r: Reader, xs: Seq<Tree>) -> Reader {
    Reader {
        gap: Gap::Item,
        nest: match r.gap {
            Gap::Line(level) => add_items(adjust(r.nest, level), xs),
            _ => add_items(r.nest, xs),
        },
    }
}

/// Reading items with spaces between them, after a space or at the
/// start of a line.
pub proof fn lemma_rel_items(p: Seq<char>, r: Reader, xs: Seq<Tree>)
    requires
        rel(p, r),
        r.gap is Line || r.gap is Space,
        xs.len() > 0,
        all_lexable_items(xs),
        r.nest.frames.len() >= 1,
        r.gap matches Gap::Line(level) ==> adjust(r.nest, level).frames.len() >= 1,
    ensures
        rel(p + items_text(xs), put_items(r, xs)),
    decreases xs.len(),
{
    let last = xs.last();
    assert(all_lexable(last));
    let base = match r.gap {
        Gap::Line(level) => adjust(r.nest, level),
        _ => r.nest,
    };
    if xs.len() == 1 {
        lemma_rel_item(p, r, xs[0]);
        assert(base.frames.last() + xs =~= base.frames.last().push(xs[0]));
    } else {
        let front = xs.drop_last();
        assert(all_lexable_items(front)) by {
            assert forall|i: int| 0 <= i < front.len() implies all_lexable(#[trigger] front[i]) by {
                assert(front[i] == xs[i]);
            }
        }
        lemma_rel_items(p, r, front);
        let r1 = put_items(r, front);
        let q1 = p + items_text(front);
        lemma_rel_space(q1, r1);
        lemma_rel_item(q1 + seq![' '], put_space(r1), last);
        assert(q1 + seq![' '] + node_text(last) =~= p + items_text(xs));
        let top = base.frames.last() + front;
        assert(r1.nest.frames.drop_last() =~= base.frames.drop_last());
        assert(top.push(last) =~= base.frames.last() + xs);
    }
}

} // verus!
