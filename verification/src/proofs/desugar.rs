//! How the two rewrites treat trees that hold no `$` and no `,`.
use crate::primes::Tree;
use crate::tree::{
    comma_item, comma_list, dollar_each, dollar_list, dollar_tree, fold_dollar, is_comma,
    is_comma_list, is_dollar,
};
use vstd::prelude::*;

verus! {

/// Whether no leaf in `t` is `$` or `,`.
pub open spec fn sugar_free(t: Tree) -> bool
    decreases t, 1nat,
{
    match t {
        Tree::Leaf(_) => !is_dollar(t) && !is_comma(t),
        Tree::List(ys) => sugar_free_items(ys),
    }
}

/// Whether no leaf in the trees `xs` is `$` or `,`.
pub open spec fn sugar_free_items(xs: Seq<Tree>) -> bool
    decreases xs, 0nat,
{
    forall|i: int| 0 <= i < xs.len() ==> sugar_free(#[trigger] xs[i])
}

/// Without a `$` among the items, this level stays as it is.
pub proof fn lemma_fold_dollar_none(xs: Seq<Tree>)
    requires
        forall|i: int| 0 <= i < xs.len() ==> !is_dollar(#[trigger] xs[i]),
    ensures
        fold_dollar(xs) == xs,
    decreases xs.len(),
{
    if xs.len() > 0 {
        let rest = xs.drop_first();
        assert forall|i: int| 0 <= i < rest.len() implies !is_dollar(#[trigger] rest[i]) by {
            assert(rest[i] == xs[i + 1]);
        }
        lemma_fold_dollar_none(rest);
        assert(seq![xs[0]] + rest =~= xs);
    }
}

/// Items before the first `$` stay; the `$` and what follows it become one list.
pub proof fn lemma_fold_dollar_tail(front: Seq<Tree>, tail: Seq<Tree>)
    requires
        forall|i: int| 0 <= i < front.len() ==> !is_dollar(#[trigger] front[i]),
    ensures
        fold_dollar(front + seq![Tree::Leaf(seq!['$'])] + tail) == front.push(
            Tree::List(fold_dollar(tail)),
        ),
    decreases front.len(),
{
    let dollar = Tree::Leaf(seq!['$']);
    let xs = front + seq![dollar] + tail;
    if front.len() == 0 {
        assert(xs.drop_first() =~= tail);
        assert(xs[0] == dollar);
        assert(seq![Tree::List(fold_dollar(tail))] =~= front.push(Tree::List(fold_dollar(tail))));
    } else {
        let rest = front.drop_first();
        assert forall|i: int| 0 <= i < rest.len() implies !is_dollar(#[trigger] rest[i]) by {
            assert(rest[i] == front[i + 1]);
        }
        lemma_fold_dollar_tail(rest, tail);
        assert(xs.drop_first() =~= rest + seq![dollar] + tail);
        assert(xs[0] == front[0]);
        assert(!is_dollar(front[0]));
        assert(seq![front[0]] + rest.push(Tree::List(fold_dollar(tail))) =~= front.push(
            Tree::List(fold_dollar(tail)),
        ));
    }
}

/// A tree without `$` stays as it is when `$` is resolved.
pub proof fn lemma_dollar_tree_plain(t: Tree)
    requires
        sugar_free(t),
    ensures
        dollar_tree(t) == t,
    decreases t, 1nat,
{
    match t {
        Tree::Leaf(_) => {},
        Tree::List(ys) => {
            lemma_dollar_list_plain(ys);
        },
    }
}

/// Trees without `$` stay as they are when `$` is resolved inside each.
pub proof fn lemma_dollar_each_plain(xs: Seq<Tree>)
    requires
        sugar_free_items(xs),
    ensures
        dollar_each(xs) == xs,
    decreases xs, 0nat,
{
    assert forall|i: int| 0 <= i < xs.len() implies dollar_each(xs)[i] == xs[i] by {
        assert(sugar_free(xs[i]));
        lemma_dollar_tree_plain(xs[i]);
    }
    assert(dollar_each(xs) =~= xs);
}

/// Trees without `$` stay as they are when `$` is resolved.
pub proof fn lemma_dollar_list_plain(xs: Seq<Tree>)
    requires
        sugar_free_items(xs),
    ensures
        dollar_list(xs) == xs,
    decreases xs, 1nat,
{
    lemma_dollar_each_plain(xs);
    assert forall|i: int| 0 <= i < xs.len() implies !is_dollar(#[trigger] xs[i]) by {
        assert(sugar_free(xs[i]));
    }
    lemma_fold_dollar_none(xs);
}

/// Trees without `,` stay as they are when commas are resolved.
pub proof fn lemma_comma_list_plain(xs: Seq<Tree>)
    requires
        sugar_free_items(xs),
    ensures
        comma_list(xs) == xs,
    decreases xs,
{
    if xs.len() > 0 {
        let front = xs.drop_last();
        assert forall|i: int| 0 <= i < front.len() implies sugar_free(#[trigger] front[i]) by {
            assert(front[i] == xs[i]);
        }
        lemma_comma_list_plain(front);
        let t = xs.last();
        assert(sugar_free(t));
        match t {
            Tree::Leaf(_) => {},
            Tree::List(ys) => {
                if ys.len() > 0 {
                    assert(sugar_free(ys[0]));
                }
                assert(!is_comma_list(t));
                lemma_comma_list_plain(ys);
            },
        }
        assert(comma_item(t) == seq![t]);
        assert(front + seq![t] =~= xs);
    }
}

/// At one level, a `$` and what follows it are resolved as the list of
/// what follows it.
pub proof fn lemma_fold_dollar_wrap(u: Seq<Tree>, v: Seq<Tree>)
    ensures
        fold_dollar(u + seq![Tree::Leaf(seq!['$'])] + v) == fold_dollar(
            u.push(Tree::List(fold_dollar(v))),
        ),
    decreases u.len(),
{
    let dollar = Tree::Leaf(seq!['$']);
    let left = u + seq![dollar] + v;
    let wrapped = Tree::List(fold_dollar(v));
    let right = u.push(wrapped);
    if u.len() == 0 {
        assert(left.drop_first() =~= v);
        assert(left[0] == dollar);
        assert(right.drop_first() =~= Seq::<Tree>::empty());
        assert(right[0] == wrapped);
        assert(!is_dollar(wrapped));
        assert(fold_dollar(right.drop_first()) =~= Seq::<Tree>::empty());
        assert(fold_dollar(right) =~= seq![wrapped]);
    } else {
        let rest = u.drop_first();
        lemma_fold_dollar_wrap(rest, v);
        assert(left.drop_first() =~= rest + seq![dollar] + v);
        assert(right.drop_first() =~= rest.push(wrapped));
        assert(left[0] == u[0]);
        assert(right[0] == u[0]);
    }
}

} // verus!
