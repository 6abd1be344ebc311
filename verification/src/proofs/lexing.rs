//! How the lexer reads the text that the writer writes on one line.
use crate::error::KindView;
use crate::lexer::{
    cursor_at, cursor_in, indent_token, lex_finish, lex_run, lex_spec, lex_step, start_cursor,
    LexCursor, LexFailure,
};
use crate::primes::{escape_char, escape_text, quoted, CirruLexState, Token, Tree};
use crate::writer::{is_allowed_char, is_allowed_text, items_text, leaf_text, node_text};
use vstd::prelude::*;

verus! {

/// The cursor after the characters `s`, read from the cursor `cur` on.
pub open spec fn lex_from(cur: LexCursor, s: Seq<char>) -> Result<LexCursor, KindView>
    decreases s.len(),
{
    if s.len() == 0 {
        Ok(cur)
    } else {
        match lex_from(cur, s.drop_last()) {
            Err(k) => Err(k),
            Ok(mid) => lex_step(mid, s.last()),
        }
    }
}

/// Reading one text after another is reading both.
pub proof fn lemma_lex_from_concat(cur: LexCursor, a: Seq<char>, b: Seq<char>)
    ensures
        lex_from(cur, a + b) == match lex_from(cur, a) {
            Err(k) => Err(k),
            Ok(mid) => lex_from(mid, b),
        },
    decreases b.len(),
{
    if b.len() == 0 {
        assert(a + b =~= a);
    } else {
        assert((a + b).drop_last() =~= a + b.drop_last());
        assert((a + b).last() == b.last());
        lemma_lex_from_concat(cur, a, b.drop_last());
    }
}

/// Reading a text that is one character.
pub proof fn lemma_lex_from_one(cur: LexCursor, c: char)
    ensures
        lex_from(cur, seq![c]) == lex_step(cur, c),
{
    let s = seq![c];
    assert(s.drop_last() =~= Seq::<char>::empty());
    assert(lex_from(cur, s.drop_last()) == Ok::<LexCursor, KindView>(cur));
}

/// A text that is read without error from the start has the tokens that
/// the last cursor holds.
pub proof fn lemma_lex_run_from(s: Seq<char>, n: int)
    requires
        0 <= n <= s.len(),
        lex_from(start_cursor(), s.take(n)) is Ok,
    ensures
        lex_run(s, n) == Ok::<LexCursor, LexFailure>(lex_from(start_cursor(), s.take(n))->Ok_0),
    decreases n,
{
    if n > 0 {
        assert(s.take(n).drop_last() =~= s.take(n - 1));
        assert(s.take(n).last() == s[n - 1]);
        lemma_lex_run_from(s, n - 1);
    } else {
        assert(s.take(0) =~= Seq::<char>::empty());
    }
}

/// The tokens of a text that is read without error, where the reading
/// does not end inside a string.
pub proof fn lemma_lex_spec_from(s: Seq<char>)
    requires
        lex_from(start_cursor(), s) matches Ok(cur) && lex_finish(cur) is Ok,
    ensures
        lex_spec(s) == Ok::<Seq<Token>, LexFailure>(
            lex_finish(lex_from(start_cursor(), s)->Ok_0)->Ok_0,
        ),
{
    assert(s.take(s.len() as int) =~= s);
    lemma_lex_run_from(s, s.len() as int);
}

/// Whether the cursor can take the first character of an item: it is
/// after a space or a parenthesis, or at the start of a line that is
/// indented by an even number of spaces.
pub open spec fn ready(cur: LexCursor) -> bool {
    ||| cur.state == CirruLexState::Space
    ||| cur.state == CirruLexState::Indent && indent_token(cur.width) is Ok
}

/// The tokens that are emitted when the first character of an item
/// arrives: those emitted before, and at the start of a line its indentation.
pub open spec fn opened(cur: LexCursor) -> Seq<Token> {
    if cur.state == CirruLexState::Indent {
        cur.acc.push(indent_token(cur.width)->Ok_0)
    } else {
        cur.acc
    }
}

/// Whether the cursor is after an item: inside a bare token that may
/// end, or after a closing quote or parenthesis.
pub open spec fn after_item(cur: LexCursor) -> bool {
    cur.state == CirruLexState::Token || cur.state == CirruLexState::Space
}

/// The tokens that are emitted once the item that the cursor is after has ended.
pub open spec fn closed(cur: LexCursor) -> Seq<Token> {
    if cur.state == CirruLexState::Token {
        cur.acc.push(Token::Str(cur.buffer))
    } else {
        cur.acc
    }
}

/// A leaf that the lexer gives back as it was written: it is not empty.
pub open spec fn lexable(s: Seq<char>) -> bool {
    s.len() > 0
}

/// The tokens of the tree `t` written on one line.
pub open spec fn flat(t: Tree) -> Seq<Token>
    decreases t, 1nat,
{
    match t {
        Tree::Leaf(s) => seq![Token::Str(s)],
        Tree::List(ys) => seq![Token::Open] + flat_items(ys) + seq![Token::Close],
    }
}

/// The tokens of the trees `xs` written on one line.
pub open spec fn flat_items(xs: Seq<Tree>) -> Seq<Token>
    decreases xs, 0nat,
{
    if xs.len() == 0 {
        Seq::empty()
    } else {
        flat_items(xs.drop_last()) + flat(xs.last())
    }
}

/// Whether every leaf in `t` is lexable.
pub open spec fn all_lexable(t: Tree) -> bool
    decreases t, 1nat,
{
    match t {
        Tree::Leaf(s) => lexable(s),
        Tree::List(ys) => all_lexable_items(ys),
    }
}

/// Whether every leaf in the trees `xs` is lexable.
pub open spec fn all_lexable_items(xs: Seq<Tree>) -> bool
    decreases xs, 0nat,
{
    forall|i: int| 0 <= i < xs.len() ==> all_lexable(#[trigger] xs[i])
}

/// Inside a bare token, allowed characters are added to the token.
proof fn lemma_lex_bare_tail(cur: LexCursor, s: Seq<char>)
    requires
        cur.state == CirruLexState::Token,
        cur.width == 0,
        is_allowed_text(s),
    ensures
        lex_from(cur, s) == Ok::<LexCursor, KindView>(
            cursor_in(CirruLexState::Token, cur.buffer + s, cur.acc),
        ),
    decreases s.len(),
{
    if s.len() == 0 {
        assert(cur.buffer + s =~= cur.buffer);
    } else {
        assert(is_allowed_text(s.drop_last())) by {
            assert forall|i: int| 0 <= i < s.drop_last().len() implies is_allowed_char(
                #[trigger] s.drop_last()[i],
            ) by {
                assert(s.drop_last()[i] == s[i]);
            }
        }
        lemma_lex_bare_tail(cur, s.drop_last());
        assert(is_allowed_char(s.last()));
        assert(cur.buffer + s =~= (cur.buffer + s.drop_last()).push(s.last()));
    }
}

/// A bare leaf is read as one token, which is open at its end.
proof fn lemma_lex_bare(cur: LexCursor, s: Seq<char>)
    requires
        ready(cur),
        is_allowed_text(s),
        s.len() > 0,
    ensures
        lex_from(cur, s) == Ok::<LexCursor, KindView>(
            cursor_in(CirruLexState::Token, s, opened(cur)),
        ),
{
    let head = seq![s[0]];
    let tail = s.skip(1);
    assert(s =~= head + tail);
    assert(is_allowed_char(s[0]));
    lemma_lex_from_one(cur, s[0]);
    let mid = cursor_in(CirruLexState::Token, head, opened(cur));
    assert(lex_step(cur, s[0]) == Ok::<LexCursor, KindView>(mid));
    assert(is_allowed_text(tail)) by {
        assert forall|i: int| 0 <= i < tail.len() implies is_allowed_char(#[trigger] tail[i]) by {
            assert(tail[i] == s[i + 1]);
        }
    }
    lemma_lex_bare_tail(mid, tail);
    lemma_lex_from_concat(cur, head, tail);
}

/// Inside a string, an escaped character is read as the character.
proof fn lemma_lex_escaped_char(cur: LexCursor, c: char)
    requires
        cur.state == CirruLexState::Str,
        cur.width == 0,
    ensures
        lex_from(cur, escape_char(c)) == Ok::<LexCursor, KindView>(
            cursor_in(CirruLexState::Str, cur.buffer.push(c), cur.acc),
        ),
{
    let e = escape_char(c);
    if e.len() == 1 {
        assert(e =~= seq![c]);
        lemma_lex_from_one(cur, c);
    } else {
        let a = seq![e[0]];
        let b = seq![e[1]];
        assert(e =~= a + b);
        lemma_lex_from_one(cur, e[0]);
        let mid = cursor_in(CirruLexState::Escape, cur.buffer, cur.acc);
        assert(lex_step(cur, e[0]) == Ok::<LexCursor, KindView>(mid));
        lemma_lex_from_one(mid, e[1]);
        lemma_lex_from_concat(cur, a, b);
    }
}

/// Inside a string, an escaped text is read as the text.
proof fn lemma_lex_escaped(cur: LexCursor, s: Seq<char>)
    requires
        cur.state == CirruLexState::Str,
        cur.width == 0,
    ensures
        lex_from(cur, escape_text(s)) == Ok::<LexCursor, KindView>(
            cursor_in(CirruLexState::Str, cur.buffer + s, cur.acc),
        ),
    decreases s.len(),
{
    if s.len() == 0 {
        assert(cur.buffer + s =~= cur.buffer);
    } else {
        lemma_lex_escaped(cur, s.drop_last());
        let mid = cursor_in(CirruLexState::Str, cur.buffer + s.drop_last(), cur.acc);
        lemma_lex_escaped_char(mid, s.last());
        lemma_lex_from_concat(cur, escape_text(s.drop_last()), escape_char(s.last()));
        assert(cur.buffer + s =~= (cur.buffer + s.drop_last()).push(s.last()));
    }
}

/// A quoted leaf is read as one token with the text that was quoted.
pub proof fn lemma_lex_quoted(cur: LexCursor, s: Seq<char>)
    requires
        ready(cur),
    ensures
        lex_from(cur, quoted(s)) == Ok::<LexCursor, KindView>(
            cursor_at(CirruLexState::Space, opened(cur).push(Token::Str(s))),
        ),
{
    let q = seq!['"'];
    lemma_lex_from_one(cur, '"');
    let inside = cursor_at(CirruLexState::Str, opened(cur));
    assert(lex_step(cur, '"') == Ok::<LexCursor, KindView>(inside));
    lemma_lex_escaped(inside, s);
    let full = cursor_in(CirruLexState::Str, s, opened(cur));
    assert(Seq::<char>::empty() + s =~= s);
    lemma_lex_from_concat(cur, q, escape_text(s));
    lemma_lex_from_one(full, '"');
    lemma_lex_from_concat(cur, q + escape_text(s), q);
}

/// A written leaf is read as one token with the text of the leaf.
pub proof fn lemma_lex_leaf(cur: LexCursor, s: Seq<char>)
    requires
        ready(cur),
        lexable(s),
    ensures
        lex_from(cur, leaf_text(s)) matches Ok(end) && after_item(end) && closed(end) == opened(
            cur,
        ).push(Token::Str(s)),
{
    if is_allowed_text(s) {
        lemma_lex_bare(cur, s);
    } else {
        lemma_lex_quoted(cur, s);
    }
}

/// After an item, a character that separates items ends the item.
pub proof fn lemma_lex_separator(cur: LexCursor, c: char)
    requires
        after_item(cur),
    ensures
        c == ' ' ==> lex_step(cur, c) == Ok::<LexCursor, KindView>(
            cursor_at(CirruLexState::Space, closed(cur)),
        ),
        c == ')' ==> lex_step(cur, c) == Ok::<LexCursor, KindView>(
            cursor_at(CirruLexState::Space, closed(cur).push(Token::Close)),
        ),
        c == '\n' ==> lex_step(cur, c) == Ok::<LexCursor, KindView>(
            cursor_at(CirruLexState::Indent, closed(cur)),
        ),
{
}

/// An opening parenthesis where an item can start.
pub proof fn lemma_lex_open(cur: LexCursor)
    requires
        ready(cur),
    ensures
        lex_step(cur, '(') == Ok::<LexCursor, KindView>(
            cursor_at(CirruLexState::Space, opened(cur).push(Token::Open)),
        ),
{
}

/// A tree written on one line is read as its tokens.
pub proof fn lemma_lex_node(cur: LexCursor, t: Tree)
    requires
        ready(cur),
        all_lexable(t),
    ensures
        lex_from(cur, node_text(t)) matches Ok(end) && after_item(end) && closed(end) == opened(
            cur,
        ) + flat(t),
    decreases t, 1nat,
{
    match t {
        Tree::Leaf(s) => {
            lemma_lex_leaf(cur, s);
            assert(opened(cur).push(Token::Str(s)) =~= opened(cur) + flat(t));
        },
        Tree::List(ys) => {
            let open = seq!['('];
            let close = seq![')'];
            lemma_lex_from_one(cur, '(');
            lemma_lex_open(cur);
            let inside = cursor_at(CirruLexState::Space, opened(cur).push(Token::Open));
            lemma_lex_from_concat(cur, open, items_text(ys));
            lemma_lex_items(inside, ys);
            let mid = lex_from(inside, items_text(ys))->Ok_0;
            lemma_lex_from_concat(cur, open + items_text(ys), close);
            lemma_lex_from_one(mid, ')');
            if ys.len() == 0 {
                assert(mid == inside);
                assert(flat_items(ys) =~= Seq::<Token>::empty());
                lemma_lex_separator(mid, ')');
                assert(inside.acc.push(Token::Close) =~= opened(cur) + flat(t));
            } else {
                lemma_lex_separator(mid, ')');
                assert((inside.acc + flat_items(ys)).push(Token::Close) =~= opened(cur) + flat(t));
            }
        },
    }
}

/// Trees written on one line, with spaces between them, are read as
/// their tokens. Where there are none, nothing is read.
pub proof fn lemma_lex_items(cur: LexCursor, xs: Seq<Tree>)
    requires
        ready(cur),
        all_lexable_items(xs),
    ensures
        xs.len() == 0 ==> lex_from(cur, items_text(xs)) == Ok::<LexCursor, KindView>(cur),
        xs.len() > 0 ==> (lex_from(cur, items_text(xs)) matches Ok(end) && after_item(end)
            && closed(end) == opened(cur) + flat_items(xs)),
    decreases xs, 0nat,
{
    if xs.len() == 0 {
    } else if xs.len() == 1 {
        assert(all_lexable(xs[0]));
        lemma_lex_node(cur, xs[0]);
        assert(xs.drop_last() =~= Seq::<Tree>::empty());
        assert(flat_items(xs.drop_last()) =~= Seq::<Token>::empty());
        assert(xs.last() == xs[0]);
        assert(flat_items(xs) =~= flat(xs[0]));
    } else {
        let front = xs.drop_last();
        assert(all_lexable_items(front)) by {
            assert forall|i: int| 0 <= i < front.len() implies all_lexable(#[trigger] front[i]) by {
                assert(front[i] == xs[i]);
            }
        }
        assert(all_lexable(xs.last()));
        lemma_lex_items(cur, front);
        let mid = lex_from(cur, items_text(front))->Ok_0;
        let space = seq![' '];
        lemma_lex_from_concat(cur, items_text(front), space);
        lemma_lex_from_one(mid, ' ');
        lemma_lex_separator(mid, ' ');
        let gap = cursor_at(CirruLexState::Space, closed(mid));
        lemma_lex_node(gap, xs.last());
        lemma_lex_from_concat(cur, items_text(front) + space, node_text(xs.last()));
        assert(opened(cur) + flat_items(front) + flat(xs.last()) =~= opened(cur) + flat_items(xs));
    }
}

} // verus!
