//! What the written text of a tree is read as before `$` and `,` are
//! resolved, and which trees the writer can write so that they are read back.
use crate::primes::Tree;
use crate::writer::{is_at_tail, is_bended, kind_of, tree_run, WriterNode};
use vstd::prelude::*;

verus! {

/// The leaf `$`.
pub open spec fn dollar_leaf() -> Tree {
    Tree::Leaf(seq!['$'])
}

/// The leaf `,`.
pub open spec fn comma_leaf() -> Tree {
    Tree::Leaf(seq![','])
}

/// The empty list.
pub open spec fn empty_list() -> Tree {
    Tree::List(Seq::empty())
}

/// Whether the item of the shape `kind` at `idx` is written on the
/// current line in parentheses, where it is not written after `$`.
pub open spec fn is_inline(
    kind: WriterNode,
    idx: int,
    prev: WriterNode,
    insist_head: bool,
    use_inline: bool,
) -> bool {
    ||| idx == 0 && insist_head
    ||| kind == WriterNode::Leaf
    ||| kind == WriterNode::SimpleExpr && (prev == WriterNode::Leaf || (use_inline && prev
        == WriterNode::SimpleExpr))
}

/// Whether the first item of a list that is written on lines of its own
/// is asked to stand in parentheses.
pub open spec fn wants_head(prev: WriterNode) -> bool {
    prev == WriterNode::BoxedExpr || prev == WriterNode::Expr
}

/// The deepest level of indentation that is reached when the first `n`
/// items of `xs` are written.
pub open spec fn deepest(
    xs: Seq<Tree>,
    n: int,
    insist_head: bool,
    use_inline: bool,
    base_level: nat,
    in_tail: bool,
) -> nat
    decreases xs, n,
{
    if n <= 0 || n > xs.len() {
        base_level
    } else {
        let before = deepest(xs, n - 1, insist_head, use_inline, base_level, in_tail);
        let st = tree_run(xs, n - 1, insist_head, use_inline, base_level, in_tail);
        let here = if is_bended(st.prev, kind_of(xs[n - 1])) {
            st.level + 1
        } else {
            st.level
        };
        let inner = match xs[n - 1] {
            Tree::Leaf(_) => here,
            Tree::List(ys) => if is_at_tail(xs.len(), n - 1, st.prev, in_tail) {
                deepest(ys, ys.len() as int, false, use_inline, st.level, true)
            } else if is_inline(kind_of(xs[n - 1]), n - 1, st.prev, insist_head, use_inline) {
                here
            } else {
                deepest(
                    ys,
                    ys.len() as int,
                    wants_head(st.prev),
                    use_inline,
                    st.level + 1,
                    false,
                )
            },
        };
        if before >= inner {
            before
        } else {
            inner
        }
    }
}

/// Whether no list among the first `n` items of `xs`, or inside them,
/// that is written after `$` starts with an empty list. Such a list
/// would be written with its first item on a line of its own at the
/// level of the line that holds the `$`, and read as the next expression
/// at that level.
pub open spec fn tails_ok(
    xs: Seq<Tree>,
    n: int,
    insist_head: bool,
    use_inline: bool,
    base_level: nat,
    in_tail: bool,
) -> bool
    decreases xs, n,
{
    if n <= 0 || n > xs.len() {
        true
    } else {
        let st = tree_run(xs, n - 1, insist_head, use_inline, base_level, in_tail);
        tails_ok(xs, n - 1, insist_head, use_inline, base_level, in_tail) && match xs[n - 1] {
            Tree::Leaf(_) => true,
            Tree::List(ys) => if is_at_tail(xs.len(), n - 1, st.prev, in_tail) {
                (ys.len() > 0 ==> ys[0] != empty_list()) && tails_ok(
                    ys,
                    ys.len() as int,
                    false,
                    use_inline,
                    st.level,
                    true,
                )
            } else if is_inline(kind_of(xs[n - 1]), n - 1, st.prev, insist_head, use_inline) {
                true
            } else {
                tails_ok(
                    ys,
                    ys.len() as int,
                    wants_head(st.prev),
                    use_inline,
                    st.level + 1,
                    false,
                )
            },
        }
    }
}

/// The frames `segs` with the items `front` before those of the first frame.
pub open spec fn seated(front: Seq<Tree>, segs: Seq<Seq<Tree>>) -> Seq<Seq<Tree>> {
    seq![front + segs[0]] + segs.drop_first()
}

/// The items that the item at `idx` of `xs` adds to the current line or
/// to the lists inside it, as they are read before `$` and `,` are
/// resolved: the item itself where it stands in parentheses or is a
/// leaf, `$` and what is read of its items where it is written after
/// `$`, and else one list of what is read of its items.
pub open spec fn raw_child(
    xs: Seq<Tree>,
    idx: int,
    prev: WriterNode,
    level: nat,
    insist_head: bool,
    use_inline: bool,
    in_tail: bool,
) -> Seq<Tree>
    decreases xs, 0nat, 0nat,
{
    if 0 <= idx < xs.len() {
        match xs[idx] {
            Tree::Leaf(_) => seq![xs[idx]],
            Tree::List(ys) => if is_at_tail(xs.len(), idx, prev, in_tail) {
                seq![dollar_leaf()] + raw_items(ys, false, use_inline, level, true)
            } else if is_inline(kind_of(xs[idx]), idx, prev, insist_head, use_inline) {
                seq![xs[idx]]
            } else {
                seq![Tree::List(raw_items(ys, wants_head(prev), use_inline, level + 1, false))]
            },
        }
    } else {
        Seq::empty()
    }
}

/// What is read of the first `n` items of `xs`, frame by frame: the
/// first frame holds what stands in the list of `xs` itself, each
/// further frame what stands in a list that a line starting with `,` opened.
pub open spec fn raw_run(
    xs: Seq<Tree>,
    n: int,
    insist_head: bool,
    use_inline: bool,
    base_level: nat,
    in_tail: bool,
) -> Seq<Seq<Tree>>
    decreases xs, n, 1nat,
{
    if n <= 0 || n > xs.len() {
        seq![Seq::empty()]
    } else {
        let segs = raw_run(xs, n - 1, insist_head, use_inline, base_level, in_tail);
        let st = tree_run(xs, n - 1, insist_head, use_inline, base_level, in_tail);
        let child = raw_child(xs, n - 1, st.prev, st.level, insist_head, use_inline, in_tail);
        if is_bended(st.prev, kind_of(xs[n - 1])) {
            segs.push(seq![comma_leaf()] + child)
        } else {
            segs.drop_last().push(segs.last() + child)
        }
    }
}

/// The frames `segs` as one list of items: each frame but the first is a
/// list at the end of the frame before it.
pub open spec fn nested(segs: Seq<Seq<Tree>>) -> Seq<Tree>
    decreases segs.len(),
{
    if segs.len() == 0 {
        Seq::empty()
    } else if segs.len() == 1 {
        segs[0]
    } else {
        nested(segs.drop_last().drop_last().push(
            segs[segs.len() - 2].push(Tree::List(segs.last())),
        ))
    }
}

/// What is read of the items `xs` before `$` and `,` are resolved.
pub open spec fn raw_items(
    xs: Seq<Tree>,
    insist_head: bool,
    use_inline: bool,
    base_level: nat,
    in_tail: bool,
) -> Seq<Tree>
    decreases xs, xs.len(), 2nat,
{
    nested(raw_run(xs, xs.len() as int, insist_head, use_inline, base_level, in_tail))
}

} // verus!
