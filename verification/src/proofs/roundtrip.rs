//! Reading back what the writer wrote on one line.
use crate::builder::build_spec;
use crate::error::KindView;
use crate::indent::resolve_spec;
use crate::lexer::{lex_finish, lex_spec, start_cursor};
use crate::primes::{Token, Tree};
use crate::proofs::shape::dollar_leaf;
use crate::proofs::building::lemma_build_one_line;
use crate::proofs::desugar::{
    lemma_comma_list_plain, lemma_fold_dollar_none, lemma_fold_dollar_tail, sugar_free,
    sugar_free_items,
};
use crate::proofs::lexing::{
    all_lexable, all_lexable_items, closed, lemma_lex_items, lemma_lex_spec_from, lex_from,
    lexable, opened,
};
use crate::tree::{comma_list, dollar_each, dollar_list, dollar_tree, fold_dollar, is_dollar};
use crate::writer::{
    is_allowed_text, is_at_tail, items_text, kind_of, leaf_text, node_text, oneliner_text,
    WriterNode,
};
use vstd::prelude::*;

verus! {

/// Trees on one line after others on the same line follow after a space.
pub proof fn lemma_items_text_concat(a: Seq<Tree>, b: Seq<Tree>)
    requires
        a.len() > 0,
        b.len() > 0,
    ensures
        items_text(a + b) == items_text(a) + seq![' '] + items_text(b),
    decreases b.len(),
{
    let ab = a + b;
    assert(ab.last() == b.last());
    if b.len() == 1 {
        assert(ab.drop_last() =~= a);
    } else {
        assert(ab.drop_last() =~= a + b.drop_last());
        lemma_items_text_concat(a, b.drop_last());
        assert(items_text(a) + seq![' '] + items_text(b.drop_last()) + seq![' '] + node_text(
            b.last(),
        ) =~= items_text(a) + seq![' '] + (items_text(b.drop_last()) + seq![' '] + node_text(
            b.last(),
        )));
    }
}

/// Whether the last of the items `xs` is written after `$`: it is a
/// list, it is not the first, and it follows a leaf or an empty list.
pub open spec fn has_tail(xs: Seq<Tree>) -> bool {
    xs.len() >= 2 && xs.last() is List && kind_of(xs[xs.len() - 2]) == WriterNode::Leaf
}

/// Where no item is written after `$`, the items of an expression on
/// one line are written each by itself.
pub proof fn lemma_oneliner_plain(xs: Seq<Tree>, n: int, in_tail: bool)
    requires
        0 <= n <= xs.len(),
        n < xs.len() || in_tail || !has_tail(xs),
    ensures
        oneliner_text(xs, n, in_tail) == items_text(xs.take(n)),
    decreases n,
{
    if n == 0 {
        assert(xs.take(0) =~= Seq::<Tree>::empty());
    } else {
        lemma_oneliner_plain(xs, n - 1, in_tail);
        let idx = n - 1;
        assert(xs.take(n).drop_last() =~= xs.take(idx));
        assert(xs.take(n).last() == xs[idx]);
        let prev = if idx > 0 {
            kind_of(xs[idx - 1])
        } else {
            WriterNode::Nil
        };
        assert(xs[idx] is List ==> !is_at_tail(xs.len(), idx, prev, in_tail));
        if n == 1 {
            assert(xs.take(n)[0] == xs[0]);
            assert(oneliner_text(xs, 0, in_tail) =~= Seq::<char>::empty());
            assert(oneliner_text(xs, n, in_tail) =~= node_text(xs[0]));
        } else {
            assert(oneliner_text(xs, n, in_tail) =~= items_text(xs.take(idx)) + seq![' ']
                + node_text(xs[idx]));
        }
    }
}

/// The items that stand on the line of an expression written on one
/// line: where the last item is written after `$`, a leaf `$` and the
/// items of that list stand in its place.
pub open spec fn oneliner_items(xs: Seq<Tree>) -> Seq<Tree> {
    if has_tail(xs) {
        xs.drop_last() + seq![dollar_leaf()] + xs.last()->List_0
    } else {
        xs
    }
}

/// An expression written on one line is its items written each by itself.
pub proof fn lemma_oneliner_is_items(xs: Seq<Tree>)
    ensures
        oneliner_text(xs, xs.len() as int, false) == items_text(oneliner_items(xs)),
{
    let n = xs.len() as int;
    if has_tail(xs) {
        let idx = n - 1;
        let front = xs.drop_last();
        let ys = xs.last()->List_0;
        lemma_oneliner_plain(xs, idx, false);
        assert(xs.take(idx) =~= front);
        assert(is_at_tail(xs.len(), idx, kind_of(xs[idx - 1]), false));
        assert(is_allowed_text(seq!['$']));
        assert(seq![dollar_leaf()].drop_last() =~= Seq::<Tree>::empty());
        assert(leaf_text(seq!['$']) == seq!['$']);
        assert(node_text(dollar_leaf()) == seq!['$']);
        assert(seq![dollar_leaf()][0] == dollar_leaf());
        assert(items_text(seq![dollar_leaf()]) == node_text(seq![dollar_leaf()][0]));
        lemma_items_text_concat(front, seq![dollar_leaf()]);
        if ys.len() == 0 {
            assert(front + seq![dollar_leaf()] + ys =~= front + seq![dollar_leaf()]);
            assert(oneliner_text(xs, n, false) =~= items_text(front) + seq![' '] + seq!['$']);
        } else {
            lemma_oneliner_plain(ys, ys.len() as int, true);
            assert(ys.take(ys.len() as int) =~= ys);
            lemma_items_text_concat(front + seq![dollar_leaf()], ys);
            assert(oneliner_text(xs, n, false) =~= items_text(front) + seq![' '] + (seq![
                '$',
                ' ',
            ] + items_text(ys)));
            assert(items_text(front) + seq![' '] + (seq!['$', ' '] + items_text(ys))
                =~= items_text(front) + seq![' '] + seq!['$'] + seq![' '] + items_text(ys));
        }
    } else {
        lemma_oneliner_plain(xs, n, false);
        assert(xs.take(n) =~= xs);
    }
}

/// One line that holds the trees `xs`, of which there is one at least, is
/// read by the lexer, the indentation resolver and the tree builder as
/// one expression: the list of `xs`.
pub proof fn lemma_read_one_line(xs: Seq<Tree>)
    requires
        xs.len() > 0,
        all_lexable_items(xs),
    ensures
        lex_spec(items_text(xs)) matches Ok(ts) && build_spec(resolve_spec(ts)) == Ok::<
            Seq<Tree>,
            KindView,
        >(seq![Tree::List(xs)]),
{
    let text = items_text(xs);
    let start = start_cursor();
    lemma_lex_items(start, xs);
    let end = lex_from(start, text)->Ok_0;
    assert(opened(start) =~= seq![Token::Indent(0)]);
    assert(lex_finish(end) == Ok::<Seq<Token>, KindView>(closed(end)));
    lemma_lex_spec_from(text);
    lemma_build_one_line(xs);
}

/// What stands on the line of an expression without `$` and `,` becomes
/// the items of the expression again when `$` and `,` are resolved.
pub proof fn lemma_oneliner_items_resolve(xs: Seq<Tree>)
    requires
        sugar_free_items(xs),
    ensures
        comma_list(dollar_list(seq![Tree::List(oneliner_items(xs))])) == seq![Tree::List(xs)],
{
    let raw = oneliner_items(xs);
    let outer = seq![Tree::List(raw)];
    // inside each item nothing changes
    assert(dollar_each(raw) == raw) by {
        assert forall|i: int| 0 <= i < raw.len() implies dollar_each(raw)[i] == raw[i] by {
            if has_tail(xs) {
                let front = xs.drop_last();
                let ys = xs.last()->List_0;
                assert(sugar_free(xs.last()));
                if i < front.len() {
                    assert(raw[i] == xs[i]);
                    assert(sugar_free(xs[i]));
                    crate::proofs::desugar::lemma_dollar_tree_plain(raw[i]);
                } else if i == front.len() {
                    assert(raw[i] == dollar_leaf());
                } else {
                    assert(raw[i] == ys[i - front.len() - 1]);
                    assert(sugar_free(ys[i - front.len() - 1]));
                    crate::proofs::desugar::lemma_dollar_tree_plain(raw[i]);
                }
            } else {
                assert(sugar_free(xs[i]));
                crate::proofs::desugar::lemma_dollar_tree_plain(raw[i]);
            }
        }
        assert(dollar_each(raw) =~= raw);
    }
    // at the level of the line, the `$` takes what follows it
    assert(fold_dollar(raw) == xs) by {
        if has_tail(xs) {
            let front = xs.drop_last();
            let ys = xs.last()->List_0;
            assert forall|i: int| 0 <= i < front.len() implies !is_dollar(#[trigger] front[i]) by {
                assert(front[i] == xs[i]);
                assert(sugar_free(xs[i]));
            }
            lemma_fold_dollar_tail(front, ys);
            assert(sugar_free(xs.last()));
            assert forall|i: int| 0 <= i < ys.len() implies !is_dollar(#[trigger] ys[i]) by {
                assert(sugar_free(ys[i]));
            }
            lemma_fold_dollar_none(ys);
            assert(front.push(Tree::List(ys)) =~= xs);
        } else {
            assert forall|i: int| 0 <= i < xs.len() implies !is_dollar(#[trigger] xs[i]) by {
                assert(sugar_free(xs[i]));
            }
            lemma_fold_dollar_none(xs);
        }
    }
    assert(dollar_tree(Tree::List(raw)) == Tree::List(xs));
    assert(dollar_each(outer) =~= seq![Tree::List(xs)]);
    assert(dollar_list(outer) == seq![Tree::List(xs)]) by {
        let one = seq![Tree::List(xs)];
        assert forall|i: int| 0 <= i < one.len() implies !is_dollar(#[trigger] one[i]) by {}
        lemma_fold_dollar_none(one);
    }
    assert(sugar_free_items(seq![Tree::List(xs)])) by {
        assert forall|i: int| 0 <= i < 1 implies sugar_free(#[trigger] seq![Tree::List(xs)][i]) by {
            assert(seq![Tree::List(xs)][i] == Tree::List(xs));
        }
    }
    lemma_comma_list_plain(seq![Tree::List(xs)]);
}

/// The items on the line of an expression are lexable if its items are.
pub proof fn lemma_oneliner_items_lexable(xs: Seq<Tree>)
    requires
        all_lexable_items(xs),
    ensures
        all_lexable_items(oneliner_items(xs)),
        xs.len() > 0 ==> oneliner_items(xs).len() > 0,
{
    let raw = oneliner_items(xs);
    if has_tail(xs) {
        let front = xs.drop_last();
        let ys = xs.last()->List_0;
        assert(all_lexable(xs.last()));
        assert forall|i: int| 0 <= i < raw.len() implies all_lexable(#[trigger] raw[i]) by {
            if i < front.len() {
                assert(raw[i] == xs[i]);
                assert(all_lexable(xs[i]));
            } else if i == front.len() {
                assert(raw[i] == dollar_leaf());
            } else {
                assert(raw[i] == ys[i - front.len() - 1]);
                assert(all_lexable(ys[i - front.len() - 1]));
            }
        }
    }
}

} // verus!
