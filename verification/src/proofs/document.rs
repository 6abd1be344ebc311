//! Reading back the top-level expressions that the writer wrote.
use crate::builder::build_spec;
use crate::error::KindView;
use crate::indent::resolve_spec;
use crate::lexer::lex_spec;
use crate::primes::Tree;
use crate::proofs::desugar::sugar_free_items;
use crate::proofs::follow::{entry_nest, lemma_follow_all};
use crate::proofs::frames::{collapse_to, next_line, Nest};
use crate::proofs::lexing::all_lexable_items;
use crate::proofs::nesting::lemma_collapse_twice;
use crate::proofs::reading::{
    lemma_rel_break, lemma_rel_end, lemma_rel_start, put_break, rel, Gap, Reader,
};
use crate::proofs::restore::{
    lemma_resolved_concat, lemma_resolved_list, lemma_restore_items, resolved, top_plain,
};
use crate::proofs::shape::{deepest, raw_items, tails_ok};
use crate::tree::{dollar_each, is_dollar};
use crate::writer::{newline_text, statements_text, tree_text};
use vstd::prelude::*;

verus! {

/// Whether the writer writes the top-level expression `t` so that it is
/// read back: it is a list with items, no leaf in it is empty or is `$`
/// or `,`, no list in it that the writer writes after `$` starts with an
/// empty list, and no line of it is indented by more than 127 levels.
pub open spec fn writable(t: Tree, use_inline: bool) -> bool {
    t matches Tree::List(cs) && cs.len() > 0 && all_lexable_items(cs) && sugar_free_items(cs)
        && tails_ok(cs, cs.len() as int, true, use_inline, 0, false) && deepest(
        cs,
        cs.len() as int,
        true,
        use_inline,
        0,
        false,
    ) < 128
}

/// Whether the writer writes each of the top-level expressions `xs` so
/// that it is read back.
pub open spec fn all_writable(xs: Seq<Tree>, use_inline: bool) -> bool {
    forall|i: int| 0 <= i < xs.len() ==> writable(#[trigger] xs[i], use_inline)
}

/// What is read of the top-level expression `t` before `$` and `,` are resolved.
pub open spec fn raw_of(t: Tree, use_inline: bool) -> Seq<Tree> {
    raw_items(t->List_0, true, use_inline, 0, false)
}

/// What is read of the first `k` of the top-level expressions `xs`
/// before `$` and `,` are resolved.
pub open spec fn raw_lists(xs: Seq<Tree>, k: int, use_inline: bool) -> Seq<Tree> {
    Seq::new(k as nat, |j: int| Tree::List(raw_of(xs[j], use_inline)))
}

/// The parser before any text.
pub open spec fn first_reader() -> Reader {
    Reader {
        gap: Gap::Line(0),
        nest: Nest { done: Seq::empty(), frames: seq![Seq::empty()], started: false },
    }
}

/// Whether `r` is the state of the parser after the first `n` of the
/// top-level expressions `xs`.
pub open spec fn read_up_to(r: Reader, xs: Seq<Tree>, n: int, use_inline: bool) -> bool {
    &&& r.gap == Gap::Line(0)
    &&& (n == 0 ==> r == first_reader())
    &&& (n >= 1 ==> r.nest.started && r.nest.frames.len() >= 1 && r.nest.done == raw_lists(
        xs,
        n - 1,
        use_inline,
    ) && collapse_to(r.nest.frames, 0) == seq![raw_of(xs[n - 1], use_inline)])
}

/// Reads the text of the first `n` of the top-level expressions `xs`.
pub proof fn lemma_read_statements(xs: Seq<Tree>, n: int, use_inline: bool) -> (r: Reader)
    requires
        0 <= n <= xs.len(),
        all_writable(xs, use_inline),
    ensures
        rel(statements_text(xs.take(n), use_inline), r),
        read_up_to(r, xs, n, use_inline),
    decreases n,
{
    if n == 0 {
        lemma_rel_start();
        assert(xs.take(0) =~= Seq::<Tree>::empty());
        first_reader()
    } else {
        let a = lemma_read_statements(xs, n - 1, use_inline);
        let t = xs[n - 1];
        assert(writable(t, use_inline));
        let cs = t->List_0;
        let before = statements_text(xs.take(n - 1), use_inline);
        let body = tree_text(cs, true, use_inline, 0, false);
        let nl = seq!['\n'];
        assert(xs.take(n).drop_last() =~= xs.take(n - 1));
        assert(xs.take(n).last() == t);
        assert(statements_text(xs.take(n), use_inline) == before + nl + body + nl);
        assert(newline_text(0) =~= nl);
        lemma_rel_break(before, a, 0);
        let r1 = put_break(a, 0);
        let ef = entry_nest(r1, 0, 0);
        let r2 = lemma_follow_all(before + nl, r1, cs, true, use_inline, 0, false, 0);
        lemma_rel_break(before + nl + body, r2, 0);
        let r = put_break(r2, 0);
        let raw = raw_of(t, use_inline);
        if n == 1 {
            assert(ef == a.nest);
            assert(raw_lists(xs, 0, use_inline) =~= Seq::<Tree>::empty());
            assert(ef.frames.drop_last().push(ef.frames.last() + raw) =~= seq![raw]);
        } else {
            lemma_collapse_twice(a.nest.frames, 0, 0);
            let low = collapse_to(a.nest.frames, 0);
            assert(ef == next_line(Nest { frames: low, ..a.nest }));
            assert(ef.done =~= raw_lists(xs, n - 1, use_inline));
            assert(ef.frames.drop_last().push(ef.frames.last() + raw) =~= seq![raw]);
        }
        r
    }
}

/// What is read of the top-level expressions gives them back when `$`
/// and `,` are resolved.
pub proof fn lemma_resolve_statements(xs: Seq<Tree>, k: int, use_inline: bool)
    requires
        0 <= k <= xs.len(),
        all_writable(xs, use_inline),
    ensures
        resolved(raw_lists(xs, k, use_inline)) == xs.take(k),
    decreases k,
{
    let all = raw_lists(xs, k, use_inline);
    if k == 0 {
        assert(all =~= Seq::<Tree>::empty());
        assert(dollar_each(all) =~= Seq::<Tree>::empty());
        assert(xs.take(0) =~= Seq::<Tree>::empty());
    } else {
        lemma_resolve_statements(xs, k - 1, use_inline);
        let front = raw_lists(xs, k - 1, use_inline);
        let t = xs[k - 1];
        assert(writable(t, use_inline));
        let raw = raw_of(t, use_inline);
        assert(all =~= front + seq![Tree::List(raw)]);
        assert(top_plain(front)) by {
            assert forall|i: int| 0 <= i < front.len() implies !is_dollar(#[trigger] front[i]) by {}
        }
        lemma_resolved_concat(front, seq![Tree::List(raw)]);
        lemma_restore_items(t->List_0, true, use_inline, 0, false);
        lemma_resolved_list(raw);
        assert(xs.take(k) =~= xs.take(k - 1) + seq![t]);
    }
}

/// The lexer, the indentation resolver and the tree builder read the
/// text of the top-level expressions `xs` as what `raw_lists` says.
pub proof fn lemma_read_document(xs: Seq<Tree>, use_inline: bool)
    requires
        all_writable(xs, use_inline),
    ensures
        lex_spec(statements_text(xs, use_inline)) matches Ok(ts) && build_spec(resolve_spec(ts))
            == Ok::<Seq<Tree>, KindView>(raw_lists(xs, xs.len() as int, use_inline)),
{
    let n = xs.len() as int;
    let text = statements_text(xs, use_inline);
    assert(xs.take(n) =~= xs);
    if n == 0 {
        assert(text =~= Seq::<char>::empty());
        assert(raw_lists(xs, 0, use_inline) =~= Seq::<Tree>::empty());
        let ts = lex_spec(text)->Ok_0;
        assert(ts =~= Seq::<crate::primes::Token>::empty());
    } else {
        let r = lemma_read_statements(xs, n, use_inline);
        lemma_rel_end(text, r);
        assert(r.nest.done.push(Tree::List(collapse_to(r.nest.frames, 0)[0])) =~= raw_lists(
            xs,
            n,
            use_inline,
        ));
    }
}

} // verus!
