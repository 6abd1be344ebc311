//! Resolving `$` and `,` in what is read of a written tree gives the tree back.
use crate::primes::Tree;
use crate::proofs::desugar::{
    lemma_comma_list_plain, lemma_dollar_list_plain, lemma_fold_dollar_none,
    lemma_fold_dollar_tail, sugar_free, sugar_free_items,
};
use crate::proofs::frames::close_one;
use crate::proofs::shape::{
    comma_leaf, dollar_leaf, is_inline, nested, raw_child, raw_items, raw_run, wants_head,
};
use crate::tree::{
    comma_item, comma_list, dollar_each, dollar_list, dollar_tree, fold_dollar, is_comma,
    is_dollar,
};
use crate::writer::{is_at_tail, is_bended, kind_of, tree_run, WriterNode};
use vstd::prelude::*;

verus! {

/// The items `xs` with `$` resolved and then `,`.
pub open spec fn resolved(xs: Seq<Tree>) -> Seq<Tree> {
    comma_list(dollar_list(xs))
}

/// Whether none of the items `xs` is the leaf `$`.
pub open spec fn top_plain(xs: Seq<Tree>) -> bool {
    forall|i: int| 0 <= i < xs.len() ==> !is_dollar(#[trigger] xs[i])
}

/// Whether `t` is a list, or a leaf that is neither `$` nor `,`.
pub open spec fn head_ok(t: Tree) -> bool {
    !is_dollar(t) && !is_comma(t)
}

/// The leaves `,` and `$` are not the same.
pub proof fn lemma_comma_not_dollar()
    ensures
        !is_dollar(comma_leaf()),
        !is_comma(dollar_leaf()),
        is_comma(comma_leaf()),
        is_dollar(dollar_leaf()),
{
    assert(seq![','][0] == ',');
    assert(seq!['$'][0] == '$');
}

/// Commas are resolved item by item.
pub proof fn lemma_comma_concat(a: Seq<Tree>, b: Seq<Tree>)
    ensures
        comma_list(a + b) == comma_list(a) + comma_list(b),
    decreases b.len(),
{
    if b.len() == 0 {
        assert(a + b =~= a);
        assert(comma_list(a) + comma_list(b) =~= comma_list(a));
    } else {
        assert((a + b).drop_last() =~= a + b.drop_last());
        assert((a + b).last() == b.last());
        lemma_comma_concat(a, b.drop_last());
        assert(comma_list(a) + comma_list(b.drop_last()) + comma_item(b.last()) =~= comma_list(a)
            + (comma_list(b.drop_last()) + comma_item(b.last())));
    }
}

/// Commas resolved in one item.
pub proof fn lemma_comma_one(t: Tree)
    ensures
        comma_list(seq![t]) == comma_item(t),
{
    let s = seq![t];
    assert(s.drop_last() =~= Seq::<Tree>::empty());
    assert(comma_list(s.drop_last()) =~= Seq::<Tree>::empty());
    assert(comma_list(s) =~= comma_item(t));
}

/// `$` is resolved inside each item by itself.
pub proof fn lemma_dollar_each_concat(a: Seq<Tree>, b: Seq<Tree>)
    ensures
        dollar_each(a + b) == dollar_each(a) + dollar_each(b),
{
    assert(dollar_each(a + b) =~= dollar_each(a) + dollar_each(b));
}

/// Resolving `$` inside the items makes no item a `$` and leaves every `$`.
pub proof fn lemma_dollar_each_plain_top(u: Seq<Tree>)
    requires
        top_plain(u),
    ensures
        top_plain(dollar_each(u)),
{
    assert forall|i: int| 0 <= i < dollar_each(u).len() implies !is_dollar(
        #[trigger] dollar_each(u)[i],
    ) by {
        assert(!is_dollar(u[i]));
    }
}

/// Items before the first `$` stay where they are.
pub proof fn lemma_fold_dollar_prefix(u: Seq<Tree>, v: Seq<Tree>)
    requires
        top_plain(u),
    ensures
        fold_dollar(u + v) == u + fold_dollar(v),
    decreases u.len(),
{
    if u.len() == 0 {
        assert(u + v =~= v);
        assert(u + fold_dollar(v) =~= fold_dollar(v));
    } else {
        let rest = u.drop_first();
        assert(top_plain(rest)) by {
            assert forall|i: int| 0 <= i < rest.len() implies !is_dollar(#[trigger] rest[i]) by {
                assert(rest[i] == u[i + 1]);
            }
        }
        lemma_fold_dollar_prefix(rest, v);
        assert((u + v).drop_first() =~= rest + v);
        assert((u + v)[0] == u[0]);
        assert(!is_dollar(u[0]));
        assert(seq![u[0]] + (rest + fold_dollar(v)) =~= u + fold_dollar(v));
    }
}

/// What stands before the first `$` is resolved by itself.
pub proof fn lemma_resolved_concat(u: Seq<Tree>, c: Seq<Tree>)
    requires
        top_plain(u),
    ensures
        resolved(u + c) == resolved(u) + resolved(c),
{
    lemma_dollar_each_concat(u, c);
    lemma_dollar_each_plain_top(u);
    lemma_fold_dollar_prefix(dollar_each(u), dollar_each(c));
    lemma_fold_dollar_prefix(dollar_each(u), Seq::empty());
    assert(dollar_each(u) + Seq::<Tree>::empty() =~= dollar_each(u));
    assert(fold_dollar(Seq::<Tree>::empty()) =~= Seq::<Tree>::empty());
    lemma_comma_concat(dollar_each(u), dollar_list(c));
}

/// A tree without `$` and `,` stays as it is.
pub proof fn lemma_resolved_plain(t: Tree)
    requires
        sugar_free(t),
    ensures
        resolved(seq![t]) == seq![t],
{
    let s = seq![t];
    assert(sugar_free_items(s)) by {
        assert forall|i: int| 0 <= i < s.len() implies sugar_free(#[trigger] s[i]) by {
            assert(s[i] == t);
        }
    }
    lemma_dollar_list_plain(s);
    lemma_comma_list_plain(s);
}

/// The first of the items, if it is no `$`, is the first after `$` is resolved.
pub proof fn lemma_dollar_list_first(r: Seq<Tree>)
    requires
        r.len() > 0,
        !is_dollar(r[0]),
    ensures
        dollar_list(r).len() > 0,
        dollar_list(r)[0] == dollar_tree(r[0]),
        dollar_list(r).drop_first() == dollar_list(r.drop_first()),
{
    let e = dollar_each(r);
    assert(e[0] == dollar_tree(r[0]));
    assert(!is_dollar(e[0]));
    assert(e.drop_first() =~= dollar_each(r.drop_first()));
    assert(fold_dollar(e) == seq![e[0]] + fold_dollar(e.drop_first()));
    assert((seq![e[0]] + fold_dollar(e.drop_first())).drop_first() =~= fold_dollar(
        e.drop_first(),
    ));
}

/// A list of items that does not start with `,` stays a list.
pub proof fn lemma_resolved_list(r: Seq<Tree>)
    requires
        r.len() > 0,
        head_ok(r[0]),
    ensures
        resolved(seq![Tree::List(r)]) == seq![Tree::List(resolved(r))],
{
    let s = seq![Tree::List(r)];
    let d = seq![Tree::List(dollar_list(r))];
    assert(dollar_each(s) =~= d);
    assert(top_plain(d)) by {
        assert forall|i: int| 0 <= i < d.len() implies !is_dollar(#[trigger] d[i]) by {}
    }
    lemma_fold_dollar_none(d);
    lemma_comma_one(Tree::List(dollar_list(r)));
    lemma_dollar_list_first(r);
    assert(!is_comma(dollar_tree(r[0])));
}

/// A `$` and the items after it become the list of the items.
pub proof fn lemma_resolved_tail(r: Seq<Tree>)
    requires
        r.len() > 0,
        head_ok(r[0]),
    ensures
        resolved(seq![dollar_leaf()] + r) == seq![Tree::List(resolved(r))],
{
    let s = seq![dollar_leaf()] + r;
    lemma_dollar_each_concat(seq![dollar_leaf()], r);
    assert(dollar_each(seq![dollar_leaf()]) =~= seq![dollar_leaf()]);
    let e = dollar_each(s);
    assert(e == seq![dollar_leaf()] + dollar_each(r));
    assert(Seq::<Tree>::empty() + seq![dollar_leaf()] + dollar_each(r) =~= e);
    lemma_fold_dollar_tail(Seq::empty(), dollar_each(r));
    assert(Seq::<Tree>::empty().push(Tree::List(dollar_list(r))) =~= seq![
        Tree::List(dollar_list(r)),
    ]);
    lemma_comma_one(Tree::List(dollar_list(r)));
    lemma_dollar_list_first(r);
    assert(!is_comma(dollar_tree(r[0])));
}

/// A `$` with nothing after it becomes the empty list.
pub proof fn lemma_resolved_dollar()
    ensures
        resolved(seq![dollar_leaf()]) == seq![Tree::List(Seq::empty())],
{
    let s = seq![dollar_leaf()];
    assert(dollar_each(s) =~= s);
    assert(s.drop_first() =~= Seq::<Tree>::empty());
    assert(fold_dollar(s) == seq![Tree::List(fold_dollar(s.drop_first()))]);
    lemma_comma_one(Tree::List(Seq::empty()));
    assert(comma_list(Seq::<Tree>::empty()) =~= Seq::<Tree>::empty());
}

/// A list that starts with `,`, at the end of items without `$`, gives
/// way to its other items.
pub proof fn lemma_resolved_splice(u: Seq<Tree>, s: Seq<Tree>)
    requires
        top_plain(u),
        s.len() > 0,
        s[0] == comma_leaf(),
    ensures
        resolved(u.push(Tree::List(s))) == resolved(u) + resolved(s.drop_first()),
{
    let c = seq![Tree::List(s)];
    assert(u.push(Tree::List(s)) =~= u + c);
    lemma_resolved_concat(u, c);
    let d = seq![Tree::List(dollar_list(s))];
    assert(dollar_each(c) =~= d);
    assert(top_plain(d)) by {
        assert forall|i: int| 0 <= i < d.len() implies !is_dollar(#[trigger] d[i]) by {}
    }
    lemma_fold_dollar_none(d);
    lemma_comma_one(Tree::List(dollar_list(s)));
    lemma_comma_not_dollar();
    lemma_dollar_list_first(s);
    assert(is_comma(dollar_tree(s[0])));
}

/// Whether the frames `segs` are as the writer leaves them: each but the
/// first starts with `,`, and none but the last holds a `$`.
pub open spec fn well_seated(segs: Seq<Seq<Tree>>) -> bool {
    &&& segs.len() >= 1
    &&& forall|j: int| 1 <= j < segs.len() ==> (#[trigger] segs[j]).len() >= 1 && segs[j][0]
        == comma_leaf()
    &&& forall|j: int| 0 <= j < segs.len() - 1 ==> top_plain(#[trigger] segs[j])
}

/// The items of the frames `segs`, resolved frame by frame, without the
/// `,` that each frame but the first starts with.
pub open spec fn flat_value(segs: Seq<Seq<Tree>>) -> Seq<Tree>
    decreases segs.len(),
{
    if segs.len() == 0 {
        Seq::empty()
    } else if segs.len() == 1 {
        resolved(segs[0])
    } else {
        flat_value(segs.drop_last()) + resolved(segs.last().drop_first())
    }
}

/// The items of a frame without its first stay without `$` if the frame is.
proof fn lemma_plain_rest(s: Seq<Tree>)
    requires
        top_plain(s),
        s.len() >= 1,
    ensures
        top_plain(s.drop_first()),
{
    assert forall|i: int| 0 <= i < s.drop_first().len() implies !is_dollar(
        #[trigger] s.drop_first()[i],
    ) by {
        assert(s.drop_first()[i] == s[i + 1]);
    }
}

/// Frames closed into one list and resolved are the frames resolved one by one.
pub proof fn lemma_resolved_nested(segs: Seq<Seq<Tree>>)
    requires
        well_seated(segs),
    ensures
        resolved(nested(segs)) == flat_value(segs),
        segs[0].len() >= 1 ==> nested(segs).len() >= 1 && nested(segs)[0] == segs[0][0],
    decreases segs.len(),
{
    if segs.len() >= 2 {
        let m = segs.len() - 1;
        let cs = close_one(segs);
        let below = segs[m - 1];
        let top = segs[m];
        assert(cs.last() == below.push(Tree::List(top)));
        assert(well_seated(cs)) by {
            assert forall|j: int| 1 <= j < cs.len() implies (#[trigger] cs[j]).len() >= 1 && cs[j][0]
                == comma_leaf() by {
                if j < m - 1 {
                    assert(cs[j] == segs[j]);
                } else {
                    assert(segs[m - 1].len() >= 1);
                }
            }
            assert forall|j: int| 0 <= j < cs.len() - 1 implies top_plain(#[trigger] cs[j]) by {
                assert(cs[j] == segs[j]);
            }
        }
        lemma_resolved_nested(cs);
        assert(top_plain(below));
        if m - 1 == 0 {
            lemma_resolved_splice(below, top);
            assert(segs.drop_last() =~= seq![below]);
            assert(flat_value(segs.drop_last()) == resolved(below));
        } else {
            lemma_plain_rest(below);
            assert(cs.last().drop_first() =~= below.drop_first().push(Tree::List(top)));
            lemma_resolved_splice(below.drop_first(), top);
            assert(cs.drop_last() =~= segs.drop_last().drop_last());
            assert(segs.drop_last().last() == below);
            assert(flat_value(cs) == flat_value(cs.drop_last()) + resolved(
                cs.last().drop_first(),
            ));
            assert(flat_value(segs.drop_last()) == flat_value(segs.drop_last().drop_last())
                + resolved(below.drop_first()));
            assert(flat_value(cs.drop_last()) + (resolved(below.drop_first()) + resolved(
                top.drop_first(),
            )) =~= flat_value(segs.drop_last()) + resolved(top.drop_first()));
        }
        if segs[0].len() >= 1 {
            assert(cs[0].len() >= 1 && cs[0][0] == segs[0][0]);
        }
    }
}

/// What the frames hold after the items `c` are added to the last frame.
proof fn lemma_flat_value_append(segs: Seq<Seq<Tree>>, c: Seq<Tree>)
    requires
        well_seated(segs),
        top_plain(segs.last()),
    ensures
        flat_value(segs.drop_last().push(segs.last() + c)) == flat_value(segs) + resolved(c),
{
    let after = segs.drop_last().push(segs.last() + c);
    let last = segs.last();
    if segs.len() == 1 {
        assert(after[0] == last + c);
        lemma_resolved_concat(last, c);
    } else {
        assert(after.drop_last() =~= segs.drop_last());
        assert(after.last() == last + c);
        assert(last.len() >= 1);
        assert((last + c).drop_first() =~= last.drop_first() + c);
        lemma_plain_rest(last);
        lemma_resolved_concat(last.drop_first(), c);
        assert(flat_value(segs.drop_last()) + (resolved(last.drop_first()) + resolved(c))
            =~= flat_value(segs) + resolved(c));
    }
}

/// What the frames hold after a frame of `,` and the items `c` is added.
proof fn lemma_flat_value_push(segs: Seq<Seq<Tree>>, c: Seq<Tree>)
    requires
        segs.len() >= 1,
    ensures
        flat_value(segs.push(seq![comma_leaf()] + c)) == flat_value(segs) + resolved(c),
{
    let x = seq![comma_leaf()] + c;
    let after = segs.push(x);
    assert(after.drop_last() =~= segs);
    assert(after.last() == x);
    assert(x.drop_first() =~= c);
}

/// Whether what is read of the first `n` items of `xs` gives them back.
pub open spec fn restored(
    xs: Seq<Tree>,
    n: int,
    insist_head: bool,
    use_inline: bool,
    base_level: nat,
    in_tail: bool,
) -> bool {
    let segs = raw_run(xs, n, insist_head, use_inline, base_level, in_tail);
    &&& well_seated(segs)
    &&& (n < xs.len() ==> top_plain(segs.last()))
    &&& flat_value(segs) == xs.take(n)
    &&& (n >= 1 ==> segs[0].len() >= 1 && head_ok(segs[0][0]))
}

/// What is read of the item at `n - 1` gives the item back.
proof fn lemma_child_value(
    xs: Seq<Tree>,
    n: int,
    insist_head: bool,
    use_inline: bool,
    base_level: nat,
    in_tail: bool,
)
    requires
        1 <= n <= xs.len(),
        sugar_free_items(xs),
    ensures
        ({
            let st = tree_run(xs, n - 1, insist_head, use_inline, base_level, in_tail);
            let c = raw_child(xs, n - 1, st.prev, st.level, insist_head, use_inline, in_tail);
            &&& resolved(c) == seq![xs[n - 1]]
            &&& c.len() >= 1
            &&& (n == 1 ==> head_ok(c[0]))
            &&& (n < xs.len() ==> top_plain(c))
        }),
    decreases xs, n, 0nat,
{
    let idx = n - 1;
    let st = tree_run(xs, idx, insist_head, use_inline, base_level, in_tail);
    let t = xs[idx];
    let c = raw_child(xs, idx, st.prev, st.level, insist_head, use_inline, in_tail);
    assert(sugar_free(t));
    match t {
        Tree::Leaf(_) => {
            lemma_resolved_plain(t);
            assert(c[0] == t);
        },
        Tree::List(ys) => {
            assert(sugar_free_items(ys));
            if is_at_tail(xs.len(), idx, st.prev, in_tail) {
                if ys.len() == 0 {
                    assert(ys =~= Seq::<Tree>::empty());
                    lemma_resolved_dollar();
                    let segs = raw_run(ys, 0, false, use_inline, st.level, true);
                    assert(nested(segs) =~= Seq::<Tree>::empty());
                    assert(c =~= seq![dollar_leaf()]);
                } else {
                    lemma_restore_items(ys, false, use_inline, st.level, true);
                    lemma_resolved_tail(raw_items(ys, false, use_inline, st.level, true));
                }
            } else if is_inline(kind_of(t), idx, st.prev, insist_head, use_inline) {
                lemma_resolved_plain(t);
                assert(c[0] == t);
            } else {
                let head = wants_head(st.prev);
                lemma_restore_items(ys, head, use_inline, st.level + 1, false);
                lemma_resolved_list(raw_items(ys, head, use_inline, st.level + 1, false));
                assert(c[0] is List);
            }
        },
    }
}

/// The frames stay as the writer leaves them when a frame of `,` and a
/// leaf is added.
proof fn lemma_seated_push_ok(segs: Seq<Seq<Tree>>, t: Tree)
    requires
        well_seated(segs),
        top_plain(segs.last()),
        !is_dollar(t),
    ensures
        well_seated(segs.push(seq![comma_leaf()] + seq![t])),
        top_plain(seq![comma_leaf()] + seq![t]),
        segs.push(seq![comma_leaf()] + seq![t])[0] == segs[0],
{
    lemma_comma_not_dollar();
    let x = seq![comma_leaf()] + seq![t];
    let after = segs.push(x);
    assert forall|j: int| 1 <= j < after.len() implies (#[trigger] after[j]).len() >= 1
        && after[j][0] == comma_leaf() by {
        if j < segs.len() {
            assert(after[j] == segs[j]);
        }
    }
    assert forall|j: int| 0 <= j < after.len() - 1 implies top_plain(#[trigger] after[j]) by {
        assert(after[j] == segs[j]);
        if j == segs.len() - 1 {
            assert(segs[j] == segs.last());
        }
    }
}

/// The frames stay as the writer leaves them when items are added to
/// the last frame.
proof fn lemma_seated_append_ok(segs: Seq<Seq<Tree>>, c: Seq<Tree>)
    requires
        well_seated(segs),
        top_plain(segs.last()),
        c.len() >= 1,
    ensures
        well_seated(segs.drop_last().push(segs.last() + c)),
        top_plain(c) ==> top_plain(segs.last() + c),
        segs.drop_last().push(segs.last() + c)[0] == (if segs.len() == 1 {
            segs[0] + c
        } else {
            segs[0]
        }),
{
    let last = segs.last();
    let after = segs.drop_last().push(last + c);
    assert forall|j: int| 1 <= j < after.len() implies (#[trigger] after[j]).len() >= 1
        && after[j][0] == comma_leaf() by {
        if j < segs.len() - 1 {
            assert(after[j] == segs[j]);
        } else {
            assert(segs[j].len() >= 1);
            assert(after[j] == last + c);
            assert((last + c)[0] == last[0]);
        }
    }
    assert forall|j: int| 0 <= j < after.len() - 1 implies top_plain(#[trigger] after[j]) by {
        assert(after[j] == segs[j]);
    }
    if top_plain(c) {
        assert forall|i: int| 0 <= i < (last + c).len() implies !is_dollar(
            #[trigger] (last + c)[i],
        ) by {
            if i < last.len() {
                assert((last + c)[i] == last[i]);
            } else {
                assert((last + c)[i] == c[i - last.len()]);
            }
        }
    }
    if segs.len() == 1 {
        assert(after[0] == last + c);
    } else {
        assert(after[0] == segs[0]);
    }
}

/// What is read of the first `n` items of `xs` gives them back.
pub proof fn lemma_restore_run(
    xs: Seq<Tree>,
    n: int,
    insist_head: bool,
    use_inline: bool,
    base_level: nat,
    in_tail: bool,
)
    requires
        0 <= n <= xs.len(),
        sugar_free_items(xs),
    ensures
        restored(xs, n, insist_head, use_inline, base_level, in_tail),
    decreases xs, n, 1nat,
{
    let after = raw_run(xs, n, insist_head, use_inline, base_level, in_tail);
    if n == 0 {
        assert(after[0] =~= Seq::<Tree>::empty());
        assert(dollar_each(Seq::<Tree>::empty()) =~= Seq::<Tree>::empty());
        assert(xs.take(0) =~= Seq::<Tree>::empty());
    } else {
        lemma_restore_run(xs, n - 1, insist_head, use_inline, base_level, in_tail);
        lemma_child_value(xs, n, insist_head, use_inline, base_level, in_tail);
        let idx = n - 1;
        let st = tree_run(xs, idx, insist_head, use_inline, base_level, in_tail);
        let segs = raw_run(xs, idx, insist_head, use_inline, base_level, in_tail);
        let t = xs[idx];
        let c = raw_child(xs, idx, st.prev, st.level, insist_head, use_inline, in_tail);
        assert(xs.take(n) =~= xs.take(idx) + seq![t]);
            assert(sugar_free(t));
        if is_bended(st.prev, kind_of(t)) {
            assert(idx >= 1);
            assert(kind_of(t) == WriterNode::Leaf);
            assert(c == seq![t]);
            assert(!is_dollar(t));
            assert(after == segs.push(seq![comma_leaf()] + c));
            lemma_flat_value_push(segs, c);
            lemma_seated_push_ok(segs, t);
        } else {
            assert(after == segs.drop_last().push(segs.last() + c));
            lemma_flat_value_append(segs, c);
            lemma_seated_append_ok(segs, c);
            if n == 1 {
                assert(segs[0] =~= Seq::<Tree>::empty());
                assert((segs[0] + c)[0] == c[0]);
            } else {
                assert((segs[0] + c)[0] == segs[0][0]);
            }
        }
    }
}

/// What is read of the items `xs`, with `$` and `,` resolved, is `xs`
/// again; it does not start with `$` or `,`.
pub proof fn lemma_restore_items(
    xs: Seq<Tree>,
    insist_head: bool,
    use_inline: bool,
    base_level: nat,
    in_tail: bool,
)
    requires
        xs.len() >= 1,
        sugar_free_items(xs),
    ensures
        resolved(raw_items(xs, insist_head, use_inline, base_level, in_tail)) == xs,
        raw_items(xs, insist_head, use_inline, base_level, in_tail).len() >= 1,
        head_ok(raw_items(xs, insist_head, use_inline, base_level, in_tail)[0]),
    decreases xs, xs.len(), 2nat,
{
    let n = xs.len() as int;
    lemma_restore_run(xs, n, insist_head, use_inline, base_level, in_tail);
    let segs = raw_run(xs, n, insist_head, use_inline, base_level, in_tail);
    lemma_resolved_nested(segs);
    assert(xs.take(n) =~= xs);
}

} // verus!
