//! How the indentation resolver and the tree builder read the tokens of
//! trees that are written on one line.
use crate::builder::{between, build_run, build_spec, build_step, BuildState};
use crate::error::KindView;
use crate::indent::{copies, indent_free, indent_run, indent_step, resolve_spec, IndentState};
use crate::primes::{Token, Tree};
use crate::proofs::lexing::{flat, flat_items};
use vstd::prelude::*;

verus! {

/// The state of the builder after the tokens `ts`, read from the state `st` on.
pub open spec fn feed(st: BuildState, ts: Seq<Token>) -> Result<BuildState, KindView>
    decreases ts.len(),
{
    if ts.len() == 0 {
        Ok(st)
    } else {
        match feed(st, ts.drop_last()) {
            Err(k) => Err(k),
            Ok(mid) => build_step(mid, ts.last()),
        }
    }
}

/// Reading some tokens after others is reading all.
pub proof fn lemma_feed_concat(st: BuildState, a: Seq<Token>, b: Seq<Token>)
    ensures
        feed(st, a + b) == match feed(st, a) {
            Err(k) => Err(k),
            Ok(mid) => feed(mid, b),
        },
    decreases b.len(),
{
    if b.len() == 0 {
        assert(a + b =~= a);
    } else {
        assert((a + b).drop_last() =~= a + b.drop_last());
        assert((a + b).last() == b.last());
        lemma_feed_concat(st, a, b.drop_last());
    }
}

/// Reading one token.
pub proof fn lemma_feed_one(st: BuildState, t: Token)
    ensures
        feed(st, seq![t]) == build_step(st, t),
{
    let s = seq![t];
    assert(s.drop_last() =~= Seq::<Token>::empty());
    assert(feed(st, s.drop_last()) == Ok::<BuildState, KindView>(st));
}

/// The builder reads from the state between expressions, with none done.
pub proof fn lemma_build_run_feed(ts: Seq<Token>)
    ensures
        build_run(ts) == feed(between(Seq::empty()), ts),
    decreases ts.len(),
{
    if ts.len() > 0 {
        lemma_build_run_feed(ts.drop_last());
    }
}

/// Inside a list, the tokens of a tree add the tree to the list.
pub proof fn lemma_feed_flat(st: BuildState, t: Tree)
    requires
        st.inside,
    ensures
        feed(st, flat(t)) == Ok::<BuildState, KindView>(
            BuildState { pointer: st.pointer.push(t), ..st },
        ),
    decreases t, 1nat,
{
    match t {
        Tree::Leaf(s) => {
            lemma_feed_one(st, Token::Str(s));
        },
        Tree::List(ys) => {
            let open = seq![Token::Open];
            let close = seq![Token::Close];
            lemma_feed_one(st, Token::Open);
            let inner = BuildState { stack: st.stack.push(st.pointer), pointer: Seq::empty(), ..st };
            lemma_feed_concat(st, open, flat_items(ys));
            lemma_feed_flat_items(inner, ys);
            let full = BuildState { pointer: inner.pointer + ys, ..inner };
            assert(inner.pointer + ys =~= ys);
            lemma_feed_concat(st, open + flat_items(ys), close);
            lemma_feed_one(full, Token::Close);
            assert(full.stack.drop_last() =~= st.stack);
            assert(full.stack.last() == st.pointer);
        },
    }
}

/// Inside a list, the tokens of some trees add the trees to the list.
pub proof fn lemma_feed_flat_items(st: BuildState, xs: Seq<Tree>)
    requires
        st.inside,
    ensures
        feed(st, flat_items(xs)) == Ok::<BuildState, KindView>(
            BuildState { pointer: st.pointer + xs, ..st },
        ),
    decreases xs, 0nat,
{
    if xs.len() == 0 {
        assert(st.pointer + xs =~= st.pointer);
    } else {
        lemma_feed_flat_items(st, xs.drop_last());
        let mid = BuildState { pointer: st.pointer + xs.drop_last(), ..st };
        lemma_feed_flat(mid, xs.last());
        lemma_feed_concat(st, flat_items(xs.drop_last()), flat(xs.last()));
        assert((st.pointer + xs.drop_last()).push(xs.last()) =~= st.pointer + xs);
    }
}

/// Between expressions, the tokens of a list add the list to those done.
pub proof fn lemma_feed_statement(done: Seq<Tree>, xs: Seq<Tree>)
    ensures
        feed(between(done), flat(Tree::List(xs))) == Ok::<BuildState, KindView>(
            between(done.push(Tree::List(xs))),
        ),
{
    let st = between(done);
    let open = seq![Token::Open];
    let close = seq![Token::Close];
    lemma_feed_one(st, Token::Open);
    let inner = BuildState { inside: true, ..between(done) };
    lemma_feed_concat(st, open, flat_items(xs));
    lemma_feed_flat_items(inner, xs);
    let full = BuildState { pointer: inner.pointer + xs, ..inner };
    assert(inner.pointer + xs =~= xs);
    lemma_feed_concat(st, open + flat_items(xs), close);
    lemma_feed_one(full, Token::Close);
}

/// The tokens of trees written on one line hold no indentation.
pub proof fn lemma_flat_indent_free(t: Tree)
    ensures
        indent_free(flat(t)),
    decreases t, 1nat,
{
    match t {
        Tree::Leaf(_) => {},
        Tree::List(ys) => {
            lemma_flat_items_indent_free(ys);
        },
    }
}

/// The tokens of trees written on one line hold no indentation.
pub proof fn lemma_flat_items_indent_free(xs: Seq<Tree>)
    ensures
        indent_free(flat_items(xs)),
    decreases xs, 0nat,
{
    if xs.len() > 0 {
        lemma_flat_items_indent_free(xs.drop_last());
        lemma_flat_indent_free(xs.last());
    }
}

/// A tree written on one line has tokens.
pub proof fn lemma_flat_not_empty(t: Tree)
    ensures
        flat(t).len() > 0,
{
}

/// Tokens that hold no indentation pass the resolver unchanged.
pub proof fn lemma_indent_run_plain(before: Seq<Token>, ts: Seq<Token>)
    requires
        indent_free(ts),
    ensures
        indent_run(before + ts) == (IndentState {
            acc: indent_run(before).acc + ts,
            level: indent_run(before).level,
        }),
    decreases ts.len(),
{
    if ts.len() == 0 {
        assert(before + ts =~= before);
        assert(indent_run(before).acc + ts =~= indent_run(before).acc);
    } else {
        assert((before + ts).drop_last() =~= before + ts.drop_last());
        assert((before + ts).last() == ts.last());
        assert(indent_free(ts.drop_last())) by {
            assert forall|i: int| 0 <= i < ts.drop_last().len() implies !(
            #[trigger] ts.drop_last()[i] is Indent) by {
                assert(ts.drop_last()[i] == ts[i]);
            }
        }
        lemma_indent_run_plain(before, ts.drop_last());
        assert(!(ts.last() is Indent)) by {
            assert(ts[ts.len() - 1] == ts.last());
        }
        assert((indent_run(before).acc + ts.drop_last()).push(ts.last()) =~= indent_run(
            before,
        ).acc + ts);
    }
}

/// One line at level 0 that holds the trees `xs`, of which there is one
/// at least, is read as one expression: the list of `xs`.
pub proof fn lemma_build_one_line(xs: Seq<Tree>)
    requires
        xs.len() > 0,
    ensures
        build_spec(resolve_spec(seq![Token::Indent(0)] + flat_items(xs))) == Ok::<
            Seq<Tree>,
            KindView,
        >(seq![Tree::List(xs)]),
{
    let first = seq![Token::Indent(0)];
    let body = flat_items(xs);
    assert(first.drop_last() =~= Seq::<Token>::empty());
    assert(first.last() == Token::Indent(0));
    assert(indent_run(first.drop_last()) == (IndentState { acc: Seq::empty(), level: 0 }));
    assert(indent_run(first) == indent_step(indent_run(first.drop_last()), first.last()));
    assert(indent_run(first) == (IndentState { acc: Seq::empty(), level: 0 }));
    lemma_flat_items_indent_free(xs);
    lemma_indent_run_plain(first, body);
    assert(Seq::<Token>::empty() + body =~= body);
    assert(body.len() > 0) by {
        lemma_flat_not_empty(xs.last());
    }
    assert(copies(Token::Close, 0) =~= Seq::<Token>::empty());
    let resolved = resolve_spec(first + body);
    assert(resolved =~= flat(Tree::List(xs)));
    lemma_build_run_feed(resolved);
    lemma_feed_statement(Seq::empty(), xs);
    assert(Seq::<Tree>::empty().push(Tree::List(xs)) =~= seq![Tree::List(xs)]);
}

} // verus!
