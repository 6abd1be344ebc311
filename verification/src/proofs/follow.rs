//! Following the parser through the text that the writer lays out for the
//! items of one list.
use crate::primes::Tree;
use crate::proofs::frames::{adjust, collapse_to, open_frames, Nest};
use crate::proofs::lexing::{all_lexable, all_lexable_items};
use crate::proofs::nesting::{
    lemma_adjust_descend, lemma_adjust_len, lemma_adjust_open, lemma_close_above,
    lemma_collapse_child, lemma_collapse_twice, lemma_nested_seated, lemma_open_frames_more,
};
use crate::proofs::reading::{
    lemma_rel_break, lemma_rel_item, lemma_rel_space, put_break, put_item, put_space, rel, Gap,
    Reader,
};
use crate::proofs::shape::{
    comma_leaf, deepest, dollar_leaf, empty_list, is_inline, nested, raw_child, raw_items, raw_run,
    seated, tails_ok, wants_head,
};
use crate::writer::{
    chunk_text, inline_text, is_allowed_char, is_allowed_text, is_at_tail, is_bended, kind_of,
    leaf_text, newline_text, next_prev, node_text, starts_with_newline, tree_run, tree_text,
    WriterNode,
};
use vstd::prelude::*;

verus! {

/// The lists that are open when the first item of a list is read: the
/// frames that the start of the line makes, or the frames with the
/// missing ones up to the level of the list added.
pub open spec fn entry_nest(r0: Reader, base_level: nat, missing: nat) -> Nest {
    match r0.gap {
        Gap::Line(_) => adjust(r0.nest, base_level),
        _ => Nest { frames: open_frames(r0.nest.frames, missing), ..r0.nest },
    }
}

/// Whether the parser in the state `r0` can take the text of the items
/// `xs` of a list at the level `base_level`. At the start of a line the
/// text begins with an item, or with the line break before an empty
/// list. In a line, where frames are missing up to the level of the
/// list, the text begins with a line break; where none is missing, it
/// does not begin with the line break before an empty list.
pub open spec fn entry_ok(
    r0: Reader,
    xs: Seq<Tree>,
    insist_head: bool,
    base_level: nat,
    missing: nat,
) -> bool {
    &&& xs.len() > 0
    &&& r0.nest.frames.len() >= 1
    &&& match r0.gap {
        Gap::Line(level) => level == base_level && missing == 0 && (xs[0] is Leaf || insist_head
            || xs[0] == empty_list()) && (!r0.nest.started ==> r0.nest.frames.len() == 1),
        Gap::Space => r0.nest.started && r0.nest.frames.len() + missing == base_level + 1 && (
        missing > 0 ==> xs[0] is List && !insist_head) && (missing == 0 && !insist_head
            ==> xs[0] != empty_list()),
        Gap::Item => r0.nest.started && r0.nest.frames.len() + missing == base_level + 1
            && xs[0] is List && !insist_head && (missing == 0 ==> xs[0] != empty_list()),
    }
}

/// The frames that the parser holds after the first `n` items of `xs`,
/// once the frames above the level of the writer are closed.
pub open spec fn seat(
    r0: Reader,
    xs: Seq<Tree>,
    n: int,
    insist_head: bool,
    use_inline: bool,
    base_level: nat,
    in_tail: bool,
    missing: nat,
) -> Seq<Seq<Tree>> {
    let ef = entry_nest(r0, base_level, missing);
    ef.frames.drop_last() + seated(
        ef.frames.last(),
        raw_run(xs, n, insist_head, use_inline, base_level, in_tail),
    )
}

/// Whether the parser in the state `r` has read an item last, holds
/// the complete expressions `done`, and holds frames that close to `k`
/// at the level `level`.
pub open spec fn settled(r: Reader, done: Seq<Tree>, k: Seq<Seq<Tree>>, level: nat) -> bool {
    &&& r.gap is Item
    &&& r.nest.started
    &&& r.nest.done == done
    &&& r.nest.frames.len() >= level + 1
    &&& collapse_to(r.nest.frames, level) == k
}

/// Whether `r` is the state of the parser after the first `n` items of
/// `xs`, read from the state `r0` on.
pub open spec fn follows(
    r0: Reader,
    r: Reader,
    xs: Seq<Tree>,
    n: int,
    insist_head: bool,
    use_inline: bool,
    base_level: nat,
    in_tail: bool,
    missing: nat,
) -> bool {
    let st = tree_run(xs, n, insist_head, use_inline, base_level, in_tail);
    &&& settled(
        r,
        entry_nest(r0, base_level, missing).done,
        seat(r0, xs, n, insist_head, use_inline, base_level, in_tail, missing),
        st.level,
    )
    &&& (n < xs.len() && (st.prev == WriterNode::Leaf || st.prev == WriterNode::SimpleExpr)
        ==> r.nest.frames.len() == st.level + 1)
}

/// After an item, the shape before the next item is that of an item.
pub proof fn lemma_prev_not_nil(
    xs: Seq<Tree>,
    n: int,
    insist_head: bool,
    use_inline: bool,
    base_level: nat,
    in_tail: bool,
)
    requires
        1 <= n <= xs.len(),
    ensures
        tree_run(xs, n, insist_head, use_inline, base_level, in_tail).prev != WriterNode::Nil,
{
}

/// The level of the writer is the level of its last frame.
pub proof fn lemma_level_segs(
    xs: Seq<Tree>,
    n: int,
    insist_head: bool,
    use_inline: bool,
    base_level: nat,
    in_tail: bool,
)
    requires
        0 <= n <= xs.len(),
    ensures
        tree_run(xs, n, insist_head, use_inline, base_level, in_tail).level + 1 == base_level
            + raw_run(xs, n, insist_head, use_inline, base_level, in_tail).len(),
        raw_run(xs, n, insist_head, use_inline, base_level, in_tail).len() >= 1,
    decreases n,
{
    if n > 0 {
        lemma_level_segs(xs, n - 1, insist_head, use_inline, base_level, in_tail);
    }
}

/// The deepest level grows with the items, from the level of the list on.
pub proof fn lemma_deepest_mono(
    xs: Seq<Tree>,
    n: int,
    m: int,
    insist_head: bool,
    use_inline: bool,
    base_level: nat,
    in_tail: bool,
)
    requires
        0 <= n <= m <= xs.len(),
    ensures
        base_level <= deepest(xs, n, insist_head, use_inline, base_level, in_tail) <= deepest(
            xs,
            m,
            insist_head,
            use_inline,
            base_level,
            in_tail,
        ),
    decreases m,
{
    if n < m {
        lemma_deepest_mono(xs, n, m - 1, insist_head, use_inline, base_level, in_tail);
    } else if n > 0 {
        lemma_deepest_mono(xs, n - 1, n - 1, insist_head, use_inline, base_level, in_tail);
    }
}

/// A written leaf is not empty and does not start with a line break.
pub proof fn lemma_leaf_text_first(s: Seq<char>)
    requires
        s.len() > 0,
    ensures
        leaf_text(s).len() > 0,
        leaf_text(s)[0] != '\n',
{
    if is_allowed_text(s) {
        assert(is_allowed_char(s[0]));
    }
}

/// What is written for the first items is the start of what is written
/// for more of them.
pub proof fn lemma_tree_run_prefix(
    xs: Seq<Tree>,
    n: int,
    m: int,
    insist_head: bool,
    use_inline: bool,
    base_level: nat,
    in_tail: bool,
)
    requires
        0 <= n <= m <= xs.len(),
    ensures
        tree_run(xs, n, insist_head, use_inline, base_level, in_tail).text.is_prefix_of(
            tree_run(xs, m, insist_head, use_inline, base_level, in_tail).text,
        ),
    decreases m - n,
{
    if n < m {
        lemma_tree_run_prefix(xs, n, m - 1, insist_head, use_inline, base_level, in_tail);
    }
}

/// The text of a list starts with a line break where its first item is a
/// list that is not asked to stand in parentheses, and nowhere else.
pub proof fn lemma_first_char(
    xs: Seq<Tree>,
    insist_head: bool,
    use_inline: bool,
    base_level: nat,
    in_tail: bool,
)
    requires
        xs.len() > 0,
        all_lexable_items(xs),
    ensures
        tree_text(xs, insist_head, use_inline, base_level, in_tail).len() > 0,
        starts_with_newline(tree_text(xs, insist_head, use_inline, base_level, in_tail)) == (
        xs[0] is List && !insist_head),
    decreases xs,
{
    let first = tree_run(xs, 1, insist_head, use_inline, base_level, in_tail).text;
    let chunk = chunk_text(xs, 0, WriterNode::Nil, base_level, insist_head, use_inline, in_tail);
    assert(tree_run(xs, 0, insist_head, use_inline, base_level, in_tail).text
        =~= Seq::<char>::empty());
    assert(first =~= chunk);
    lemma_tree_run_prefix(xs, 1, xs.len() as int, insist_head, use_inline, base_level, in_tail);
    assert(all_lexable(xs[0]));
    let kind = kind_of(xs[0]);
    match xs[0] {
        Tree::Leaf(s) => {
            lemma_leaf_text_first(s);
        },
        Tree::List(ys) => {
            if insist_head {
                assert(chunk == inline_text(ys));
                assert(chunk[0] == '(');
            } else if kind == WriterNode::Leaf {
                assert(chunk == newline_text(base_level) + seq!['(', ')']);
                assert(chunk[0] == '\n');
            } else if kind == WriterNode::SimpleExpr {
                assert(chunk[0] == '\n');
            } else {
                lemma_first_char(ys, false, use_inline, base_level + 1, false);
                let content = tree_text(ys, false, use_inline, base_level + 1, false);
                if kind == WriterNode::Expr {
                    if starts_with_newline(content) {
                        assert(chunk == content);
                    } else {
                        assert(chunk == newline_text(base_level + 1) + content);
                        assert(chunk[0] == '\n');
                    }
                } else {
                    assert(kind == WriterNode::BoxedExpr);
                    assert(ys[0] is List);
                    assert(chunk == content);
                }
            }
        },
    }
    assert(chunk.len() > 0);
    assert(first[0] == tree_text(xs, insist_head, use_inline, base_level, in_tail)[0]);
}

/// Items added to the last frame.
pub proof fn lemma_seated_append(
    base: Seq<Seq<Tree>>,
    front: Seq<Tree>,
    segs: Seq<Seq<Tree>>,
    c: Seq<Tree>,
)
    requires
        segs.len() >= 1,
    ensures
        base + seated(front, segs.drop_last().push(segs.last() + c)) == (base + seated(
            front,
            segs,
        )).drop_last().push((base + seated(front, segs)).last() + c),
{
    let k = base + seated(front, segs);
    let after = base + seated(front, segs.drop_last().push(segs.last() + c));
    if segs.len() == 1 {
        assert((front + segs[0]) + c =~= front + (segs[0] + c));
    }
    assert(after =~= k.drop_last().push(k.last() + c));
}

/// A frame added after the last.
pub proof fn lemma_seated_push(
    base: Seq<Seq<Tree>>,
    front: Seq<Tree>,
    segs: Seq<Seq<Tree>>,
    x: Seq<Tree>,
)
    requires
        segs.len() >= 1,
    ensures
        base + seated(front, segs.push(x)) == (base + seated(front, segs)).push(x),
{
    assert(base + seated(front, segs.push(x)) =~= (base + seated(front, segs)).push(x));
}

/// An item on the current line, after a space.
proof fn read_next_item(
    q: Seq<char>,
    a: Reader,
    t: Tree,
    done: Seq<Tree>,
    k: Seq<Seq<Tree>>,
    level: nat,
) -> (r: Reader)
    requires
        rel(q, a),
        settled(a, done, k, level),
        a.nest.frames.len() == level + 1,
        all_lexable(t),
    ensures
        rel(q + seq![' '] + node_text(t), r),
        settled(r, done, k.drop_last().push(k.last() + seq![t]), level),
        r.nest.frames.len() == level + 1,
{
    lemma_rel_space(q, a);
    lemma_rel_item(q + seq![' '], put_space(a), t);
    let r = put_item(put_space(a), t);
    assert(collapse_to(a.nest.frames, level) == a.nest.frames);
    assert(collapse_to(r.nest.frames, level) == r.nest.frames);
    assert(k.last() + seq![t] =~= k.last().push(t));
    r
}

/// An item that is the first of its list, on the current line.
proof fn read_first_item(q: Seq<char>, r0: Reader, t: Tree, base_level: nat) -> (r: Reader)
    requires
        rel(q, r0),
        r0.nest.frames.len() >= 1,
        match r0.gap {
            Gap::Line(level) => level == base_level && (!r0.nest.started ==> r0.nest.frames.len()
                == 1),
            Gap::Space => r0.nest.frames.len() == base_level + 1,
            Gap::Item => false,
        },
        all_lexable(t),
    ensures
        rel(q + node_text(t), r),
        settled(
            r,
            entry_nest(r0, base_level, 0).done,
            entry_nest(r0, base_level, 0).frames.drop_last().push(
                entry_nest(r0, base_level, 0).frames.last() + seq![t],
            ),
            base_level,
        ),
        r.nest.frames.len() == base_level + 1,
{
    lemma_rel_item(q, r0, t);
    let r = put_item(r0, t);
    let ef = entry_nest(r0, base_level, 0);
    match r0.gap {
        Gap::Line(_) => {
            lemma_adjust_len(r0.nest, base_level);
        },
        _ => {
            lemma_open_frames_more(r0.nest.frames, 0);
        },
    }
    assert(r.nest.frames == ef.frames.drop_last().push(ef.frames.last().push(t)));
    assert(collapse_to(r.nest.frames, base_level) == r.nest.frames);
    assert(ef.frames.last() + seq![t] =~= ef.frames.last().push(t));
    r
}

/// An empty list that is the first of its list: a line break at the
/// level of the list, and `()`.
proof fn read_first_empty(q: Seq<char>, r0: Reader, base_level: nat, missing: nat) -> (r: Reader)
    requires
        rel(q, r0),
        r0.nest.frames.len() >= 1,
        base_level < 128,
        match r0.gap {
            Gap::Line(level) => level == base_level && missing == 0 && (!r0.nest.started
                ==> r0.nest.frames.len() == 1),
            _ => missing >= 1 && r0.nest.frames.len() + missing == base_level + 1,
        },
    ensures
        rel(q + (newline_text(base_level) + seq!['(', ')']), r),
        settled(
            r,
            entry_nest(r0, base_level, missing).done,
            entry_nest(r0, base_level, missing).frames.drop_last().push(
                entry_nest(r0, base_level, missing).frames.last() + seq![empty_list()],
            ),
            base_level,
        ),
        r.nest.frames.len() == base_level + 1,
{
    let t = empty_list();
    assert(node_text(t) =~= seq!['(', ')']);
    lemma_rel_break(q, r0, base_level);
    let r1 = put_break(r0, base_level);
    let q1 = q + newline_text(base_level);
    lemma_rel_item(q1, r1, t);
    let r = put_item(r1, t);
    assert(q1 + node_text(t) =~= q + (newline_text(base_level) + seq!['(', ')']));
    let ef = entry_nest(r0, base_level, missing);
    match r0.gap {
        Gap::Line(_) => {
            lemma_adjust_len(r0.nest, base_level);
        },
        _ => {
            lemma_adjust_open(r0.nest, base_level);
            lemma_open_frames_more(r0.nest.frames, missing);
        },
    }
    assert(adjust(r0.nest, base_level).frames == ef.frames);
    assert(r.nest.frames == ef.frames.drop_last().push(ef.frames.last().push(t)));
    assert(collapse_to(r.nest.frames, base_level) == r.nest.frames);
    assert(ef.frames.last() + seq![t] =~= ef.frames.last().push(t));
    r
}

/// A leaf or an empty list after a boxed or mixed expression: a line
/// break, `, ` and the item.
proof fn read_bend(
    q: Seq<char>,
    a: Reader,
    t: Tree,
    done: Seq<Tree>,
    k: Seq<Seq<Tree>>,
    level: nat,
) -> (r: Reader)
    requires
        rel(q, a),
        settled(a, done, k, level),
        level + 1 < 128,
        all_lexable(t),
    ensures
        rel(q + (newline_text(level + 1) + seq![',', ' '] + node_text(t)), r),
        settled(r, done, k.push(seq![comma_leaf()] + seq![t]), level + 1),
        r.nest.frames.len() == level + 2,
{
    let deep = level + 1;
    lemma_rel_break(q, a, deep);
    let r1 = put_break(a, deep);
    let q1 = q + newline_text(deep);
    assert(is_allowed_text(seq![',']));
    assert(node_text(comma_leaf()) == seq![',']);
    lemma_rel_item(q1, r1, comma_leaf());
    let r2 = put_item(r1, comma_leaf());
    let q2 = q1 + seq![','];
    lemma_rel_space(q2, r2);
    let r3 = put_space(r2);
    let q3 = q2 + seq![' '];
    lemma_rel_item(q3, r3, t);
    let r = put_item(r3, t);
    assert(q3 + node_text(t) =~= q + (newline_text(deep) + seq![',', ' '] + node_text(t)));
    lemma_adjust_descend(a.nest, deep);
    let top = seq![comma_leaf()] + seq![t];
    assert(Seq::<Tree>::empty().push(comma_leaf()).push(t) =~= top);
    assert(r.nest.frames =~= k.push(top));
    assert(collapse_to(r.nest.frames, deep) == r.nest.frames);
    r
}

/// What the frames close to at the level of a list once the text of all
/// its items is read.
pub proof fn lemma_follow_all(
    p: Seq<char>,
    r0: Reader,
    xs: Seq<Tree>,
    insist_head: bool,
    use_inline: bool,
    base_level: nat,
    in_tail: bool,
    missing: nat,
) -> (r: Reader)
    requires
        rel(p, r0),
        all_lexable_items(xs),
        entry_ok(r0, xs, insist_head, base_level, missing),
        tails_ok(xs, xs.len() as int, insist_head, use_inline, base_level, in_tail),
        deepest(xs, xs.len() as int, insist_head, use_inline, base_level, in_tail) < 128,
    ensures
        rel(p + tree_text(xs, insist_head, use_inline, base_level, in_tail), r),
        settled(
            r,
            entry_nest(r0, base_level, missing).done,
            entry_nest(r0, base_level, missing).frames.drop_last().push(
                entry_nest(r0, base_level, missing).frames.last() + raw_items(
                    xs,
                    insist_head,
                    use_inline,
                    base_level,
                    in_tail,
                ),
            ),
            base_level,
        ),
    decreases xs, xs.len(), 3nat,
{
    let n = xs.len() as int;
    let r = lemma_follow(p, r0, xs, n, insist_head, use_inline, base_level, in_tail, missing);
    let st = tree_run(xs, n, insist_head, use_inline, base_level, in_tail);
    let ef = entry_nest(r0, base_level, missing);
    let segs = raw_run(xs, n, insist_head, use_inline, base_level, in_tail);
    lemma_level_segs(xs, n, insist_head, use_inline, base_level, in_tail);
    lemma_seat_start(r0, xs, insist_head, use_inline, base_level, in_tail, missing);
    lemma_collapse_twice(r.nest.frames, st.level, base_level);
    let k = seat(r0, xs, n, insist_head, use_inline, base_level, in_tail, missing);
    let base = ef.frames.drop_last();
    lemma_close_above(base, seated(ef.frames.last(), segs));
    lemma_nested_seated(ef.frames.last(), segs);
    assert(collapse_to(k, base_level) == base.push(ef.frames.last() + nested(segs)));
    r
}

/// A space and `$`.
proof fn read_dollar(
    q: Seq<char>,
    a: Reader,
    done: Seq<Tree>,
    k: Seq<Seq<Tree>>,
    level: nat,
) -> (r: Reader)
    requires
        rel(q, a),
        settled(a, done, k, level),
        a.nest.frames.len() == level + 1,
    ensures
        rel(q + seq![' '] + seq!['$'], r),
        settled(r, done, k.drop_last().push(k.last() + seq![dollar_leaf()]), level),
        r.nest.frames.len() == level + 1,
{
    assert(is_allowed_text(seq!['$']));
    assert(node_text(dollar_leaf()) == seq!['$']);
    read_next_item(q, a, dollar_leaf(), done, k, level)
}

/// An empty list after `$`: a space and `$`.
proof fn read_tail_empty(
    q: Seq<char>,
    a: Reader,
    done: Seq<Tree>,
    k: Seq<Seq<Tree>>,
    level: nat,
    use_inline: bool,
) -> (r: Reader)
    requires
        rel(q, a),
        settled(a, done, k, level),
        a.nest.frames.len() == level + 1,
    ensures
        rel(q + (seq![' '] + seq!['$']), r),
        settled(
            r,
            done,
            k.drop_last().push(
                k.last() + (seq![dollar_leaf()] + raw_items(
                    Seq::empty(),
                    false,
                    use_inline,
                    level,
                    true,
                )),
            ),
            level,
        ),
{
    let r = read_dollar(q, a, done, k, level);
    assert(q + seq![' '] + seq!['$'] =~= q + (seq![' '] + seq!['$']));
    let segs = raw_run(Seq::<Tree>::empty(), 0, false, use_inline, level, true);
    assert(nested(segs) =~= Seq::<Tree>::empty());
    assert(seq![dollar_leaf()] + Seq::<Tree>::empty() =~= seq![dollar_leaf()]);
    r
}

/// A list with items after `$`: a space, `$`, a space and the items of the list.
proof fn read_tail(
    q: Seq<char>,
    a: Reader,
    ys: Seq<Tree>,
    done: Seq<Tree>,
    k: Seq<Seq<Tree>>,
    level: nat,
    use_inline: bool,
) -> (r: Reader)
    requires
        rel(q, a),
        settled(a, done, k, level),
        a.nest.frames.len() == level + 1,
        ys.len() > 0,
        ys[0] != empty_list(),
        all_lexable_items(ys),
        tails_ok(ys, ys.len() as int, false, use_inline, level, true),
        deepest(ys, ys.len() as int, false, use_inline, level, true) < 128,
    ensures
        rel(q + (seq![' '] + (seq!['$', ' '] + tree_text(ys, false, use_inline, level, true))), r),
        settled(
            r,
            done,
            k.drop_last().push(
                k.last() + (seq![dollar_leaf()] + raw_items(ys, false, use_inline, level, true)),
            ),
            level,
        ),
    decreases ys, ys.len(), 4nat,
{
    let inner_text = tree_text(ys, false, use_inline, level, true);
    let raw = raw_items(ys, false, use_inline, level, true);
    let r2 = read_dollar(q, a, done, k, level);
    let q2 = q + seq![' '] + seq!['$'];
    lemma_rel_space(q2, r2);
    let r3 = put_space(r2);
    let q3 = q2 + seq![' '];
    lemma_open_frames_more(r3.nest.frames, 0);
    assert(collapse_to(r3.nest.frames, level) == r3.nest.frames);
    let r = lemma_follow_all(q3, r3, ys, false, use_inline, level, true, 0);
    assert(q3 + inner_text =~= q + (seq![' '] + (seq!['$', ' '] + inner_text)));
    let f3 = r3.nest.frames;
    let k2 = k.drop_last().push(k.last() + seq![dollar_leaf()]);
    assert(f3 == k2);
    assert(f3.drop_last() =~= k.drop_last());
    assert(f3.last() + raw =~= k.last() + (seq![dollar_leaf()] + raw));
    r
}

/// A list on lines of its own, after the parser has read an item of the
/// list around it.
proof fn read_deeper(
    q: Seq<char>,
    a: Reader,
    ys: Seq<Tree>,
    done: Seq<Tree>,
    k: Seq<Seq<Tree>>,
    level: nat,
    head: bool,
    use_inline: bool,
    explicit: bool,
) -> (r: Reader)
    requires
        rel(q, a),
        settled(a, done, k, level),
        k.len() == level + 1,
        ys.len() > 0,
        all_lexable_items(ys),
        tails_ok(ys, ys.len() as int, head, use_inline, level + 1, false),
        deepest(ys, ys.len() as int, head, use_inline, level + 1, false) < 128,
        explicit ==> ys[0] is Leaf || head,
        !explicit ==> a.nest.frames.len() == level + 1 && ys[0] is List && !head,
    ensures
        rel(
            q + ((if explicit {
                newline_text(level + 1)
            } else {
                Seq::<char>::empty()
            }) + tree_text(ys, head, use_inline, level + 1, false)),
            r,
        ),
        settled(
            r,
            done,
            k.drop_last().push(
                k.last() + seq![
                    Tree::List(raw_items(ys, head, use_inline, level + 1, false)),
                ],
            ),
            level,
        ),
    decreases ys, ys.len(), 4nat,
{
    let deep = level + 1;
    let inner_text = tree_text(ys, head, use_inline, deep, false);
    let raw = raw_items(ys, head, use_inline, deep, false);
    lemma_deepest_mono(ys, 0, ys.len() as int, head, use_inline, deep, false);
    let r1 = if explicit {
        put_break(a, deep)
    } else {
        a
    };
    let q1 = if explicit {
        q + newline_text(deep)
    } else {
        q
    };
    let d1: nat = if explicit {
        0
    } else {
        1
    };
    if explicit {
        lemma_rel_break(q, a, deep);
        lemma_adjust_descend(a.nest, deep);
    } else {
        lemma_open_frames_more(a.nest.frames, 0);
        lemma_open_frames_more(a.nest.frames, 1);
        assert(collapse_to(a.nest.frames, level) == a.nest.frames);
    }
    let efc = entry_nest(r1, deep, d1);
    assert(efc.frames == k.push(Seq::empty()));
    assert(efc.done == done);
    let r = lemma_follow_all(q1, r1, ys, head, use_inline, deep, false, d1);
    assert(q1 + inner_text =~= q + ((if explicit {
        newline_text(deep)
    } else {
        Seq::<char>::empty()
    }) + inner_text));
    assert(k.push(Seq::<Tree>::empty()).drop_last() =~= k);
    assert(Seq::<Tree>::empty() + raw =~= raw);
    lemma_collapse_child(r.nest.frames, k, raw);
    assert(k.last() + seq![Tree::List(raw)] =~= k.last().push(Tree::List(raw)));
    r
}

/// A list on lines of its own that is the first item of the list around it.
proof fn read_deeper_first(
    q: Seq<char>,
    r0: Reader,
    ys: Seq<Tree>,
    base_level: nat,
    missing: nat,
    use_inline: bool,
    explicit: bool,
) -> (r: Reader)
    requires
        rel(q, r0),
        r0.gap is Space || r0.gap is Item,
        r0.nest.started,
        r0.nest.frames.len() >= 1,
        r0.nest.frames.len() + missing == base_level + 1,
        ys.len() > 0,
        all_lexable_items(ys),
        tails_ok(ys, ys.len() as int, false, use_inline, base_level + 1, false),
        deepest(ys, ys.len() as int, false, use_inline, base_level + 1, false) < 128,
        explicit ==> ys[0] is Leaf,
        !explicit ==> ys[0] is List,
    ensures
        rel(
            q + ((if explicit {
                newline_text(base_level + 1)
            } else {
                Seq::<char>::empty()
            }) + tree_text(ys, false, use_inline, base_level + 1, false)),
            r,
        ),
        settled(
            r,
            r0.nest.done,
            open_frames(r0.nest.frames, missing).drop_last().push(
                open_frames(r0.nest.frames, missing).last() + seq![
                    Tree::List(raw_items(ys, false, use_inline, base_level + 1, false)),
                ],
            ),
            base_level,
        ),
    decreases ys, ys.len(), 4nat,
{
    let deep = base_level + 1;
    let frames = r0.nest.frames;
    let k = open_frames(frames, missing);
    let inner_text = tree_text(ys, false, use_inline, deep, false);
    let raw = raw_items(ys, false, use_inline, deep, false);
    lemma_deepest_mono(ys, 0, ys.len() as int, false, use_inline, deep, false);
    lemma_open_frames_more(frames, missing);
    let r1 = if explicit {
        put_break(r0, deep)
    } else {
        r0
    };
    let q1 = if explicit {
        q + newline_text(deep)
    } else {
        q
    };
    let d1: nat = if explicit {
        0
    } else {
        missing + 1
    };
    if explicit {
        lemma_rel_break(q, r0, deep);
        if missing > 0 {
            lemma_adjust_open(r0.nest, deep);
        } else {
            lemma_adjust_descend(r0.nest, deep);
            lemma_open_frames_more(frames, 0);
            assert(collapse_to(frames, base_level) == frames);
        }
    }
    let efc = entry_nest(r1, deep, d1);
    assert(efc.frames == k.push(Seq::empty()));
    assert(efc.done == r0.nest.done);
    let r = lemma_follow_all(q1, r1, ys, false, use_inline, deep, false, d1);
    assert(q1 + inner_text =~= q + ((if explicit {
        newline_text(deep)
    } else {
        Seq::<char>::empty()
    }) + inner_text));
    assert(k.push(Seq::<Tree>::empty()).drop_last() =~= k);
    assert(Seq::<Tree>::empty() + raw =~= raw);
    lemma_collapse_child(r.nest.frames, k, raw);
    assert(k.last() + seq![Tree::List(raw)] =~= k.last().push(Tree::List(raw)));
    r
}

/// Before the first item, the frames are those of the entry.
proof fn lemma_seat_start(
    r0: Reader,
    xs: Seq<Tree>,
    insist_head: bool,
    use_inline: bool,
    base_level: nat,
    in_tail: bool,
    missing: nat,
)
    requires
        entry_ok(r0, xs, insist_head, base_level, missing),
    ensures
        seat(r0, xs, 0, insist_head, use_inline, base_level, in_tail, missing) == entry_nest(
            r0,
            base_level,
            missing,
        ).frames,
        entry_nest(r0, base_level, missing).frames.len() == base_level + 1,
{
    let ef = entry_nest(r0, base_level, missing);
    match r0.gap {
        Gap::Line(_) => {
            lemma_adjust_len(r0.nest, base_level);
        },
        _ => {
            lemma_open_frames_more(r0.nest.frames, missing);
        },
    }
    let segs = raw_run(xs, 0, insist_head, use_inline, base_level, in_tail);
    assert(seated(ef.frames.last(), segs) =~= seq![ef.frames.last()]);
    assert(ef.frames.drop_last() + seq![ef.frames.last()] =~= ef.frames);
}

/// The frames after an item that adds the items `c` to the last frame.
proof fn lemma_seat_append(
    r0: Reader,
    xs: Seq<Tree>,
    n: int,
    insist_head: bool,
    use_inline: bool,
    base_level: nat,
    in_tail: bool,
    missing: nat,
)
    requires
        1 <= n <= xs.len(),
        entry_ok(r0, xs, insist_head, base_level, missing),
        !is_bended(
            tree_run(xs, n - 1, insist_head, use_inline, base_level, in_tail).prev,
            kind_of(xs[n - 1]),
        ),
    ensures
        ({
            let st = tree_run(xs, n - 1, insist_head, use_inline, base_level, in_tail);
            let k = seat(r0, xs, n - 1, insist_head, use_inline, base_level, in_tail, missing);
            let c = raw_child(xs, n - 1, st.prev, st.level, insist_head, use_inline, in_tail);
            &&& seat(r0, xs, n, insist_head, use_inline, base_level, in_tail, missing)
                == k.drop_last().push(k.last() + c)
            &&& k.len() == st.level + 1
            &&& tree_run(xs, n, insist_head, use_inline, base_level, in_tail).level == st.level
        }),
{
    let ef = entry_nest(r0, base_level, missing);
    let st = tree_run(xs, n - 1, insist_head, use_inline, base_level, in_tail);
    let segs = raw_run(xs, n - 1, insist_head, use_inline, base_level, in_tail);
    let c = raw_child(xs, n - 1, st.prev, st.level, insist_head, use_inline, in_tail);
    lemma_seat_start(r0, xs, insist_head, use_inline, base_level, in_tail, missing);
    lemma_level_segs(xs, n - 1, insist_head, use_inline, base_level, in_tail);
    lemma_seated_append(ef.frames.drop_last(), ef.frames.last(), segs, c);
}

/// The frames after an item that starts a frame of its own after `,`.
proof fn lemma_seat_push(
    r0: Reader,
    xs: Seq<Tree>,
    n: int,
    insist_head: bool,
    use_inline: bool,
    base_level: nat,
    in_tail: bool,
    missing: nat,
)
    requires
        1 <= n <= xs.len(),
        entry_ok(r0, xs, insist_head, base_level, missing),
        is_bended(
            tree_run(xs, n - 1, insist_head, use_inline, base_level, in_tail).prev,
            kind_of(xs[n - 1]),
        ),
    ensures
        ({
            let st = tree_run(xs, n - 1, insist_head, use_inline, base_level, in_tail);
            let k = seat(r0, xs, n - 1, insist_head, use_inline, base_level, in_tail, missing);
            let c = raw_child(xs, n - 1, st.prev, st.level, insist_head, use_inline, in_tail);
            &&& seat(r0, xs, n, insist_head, use_inline, base_level, in_tail, missing) == k.push(
                seq![comma_leaf()] + c,
            )
            &&& k.len() == st.level + 1
            &&& tree_run(xs, n, insist_head, use_inline, base_level, in_tail).level == st.level
                + 1
        }),
{
    let ef = entry_nest(r0, base_level, missing);
    let st = tree_run(xs, n - 1, insist_head, use_inline, base_level, in_tail);
    let segs = raw_run(xs, n - 1, insist_head, use_inline, base_level, in_tail);
    let c = raw_child(xs, n - 1, st.prev, st.level, insist_head, use_inline, in_tail);
    lemma_seat_start(r0, xs, insist_head, use_inline, base_level, in_tail, missing);
    lemma_level_segs(xs, n - 1, insist_head, use_inline, base_level, in_tail);
    lemma_seated_push(ef.frames.drop_last(), ef.frames.last(), segs, seq![comma_leaf()] + c);
}

/// What is known before the item at `n - 1` is read.
pub open spec fn step_pre(
    p: Seq<char>,
    r0: Reader,
    a: Reader,
    xs: Seq<Tree>,
    n: int,
    insist_head: bool,
    use_inline: bool,
    base_level: nat,
    in_tail: bool,
    missing: nat,
) -> bool {
    &&& 1 <= n <= xs.len()
    &&& all_lexable_items(xs)
    &&& entry_ok(r0, xs, insist_head, base_level, missing)
    &&& tails_ok(xs, xs.len() as int, insist_head, use_inline, base_level, in_tail)
    &&& deepest(xs, xs.len() as int, insist_head, use_inline, base_level, in_tail) < 128
    &&& rel(p + tree_run(xs, n - 1, insist_head, use_inline, base_level, in_tail).text, a)
    &&& (n == 1 ==> a == r0)
    &&& (n > 1 ==> follows(
        r0,
        a,
        xs,
        n - 1,
        insist_head,
        use_inline,
        base_level,
        in_tail,
        missing,
    ))
}

/// What is shown once the item at `n - 1` is read.
pub open spec fn step_post(
    p: Seq<char>,
    r0: Reader,
    r: Reader,
    xs: Seq<Tree>,
    n: int,
    insist_head: bool,
    use_inline: bool,
    base_level: nat,
    in_tail: bool,
    missing: nat,
) -> bool {
    &&& rel(p + tree_run(xs, n, insist_head, use_inline, base_level, in_tail).text, r)
    &&& follows(r0, r, xs, n, insist_head, use_inline, base_level, in_tail, missing)
}

/// Reads the text of the first `n` items of the list `xs` from the state
/// `r0` on, and returns the state after them.
pub proof fn lemma_follow(
    p: Seq<char>,
    r0: Reader,
    xs: Seq<Tree>,
    n: int,
    insist_head: bool,
    use_inline: bool,
    base_level: nat,
    in_tail: bool,
    missing: nat,
) -> (r: Reader)
    requires
        rel(p, r0),
        1 <= n <= xs.len(),
        all_lexable_items(xs),
        entry_ok(r0, xs, insist_head, base_level, missing),
        tails_ok(xs, xs.len() as int, insist_head, use_inline, base_level, in_tail),
        deepest(xs, xs.len() as int, insist_head, use_inline, base_level, in_tail) < 128,
    ensures
        step_post(p, r0, r, xs, n, insist_head, use_inline, base_level, in_tail, missing),
    decreases xs, n, 2nat,
{
    if n == 1 {
        assert(p + tree_run(xs, 0, insist_head, use_inline, base_level, in_tail).text =~= p);
        lemma_follow_step(p, r0, r0, xs, n, insist_head, use_inline, base_level, in_tail, missing)
    } else {
        let a = lemma_follow(
            p,
            r0,
            xs,
            n - 1,
            insist_head,
            use_inline,
            base_level,
            in_tail,
            missing,
        );
        lemma_follow_step(p, r0, a, xs, n, insist_head, use_inline, base_level, in_tail, missing)
    }
}

/// The lists have no tail that starts with an empty list up to each item.
proof fn lemma_tails_mono(
    xs: Seq<Tree>,
    n: int,
    m: int,
    insist_head: bool,
    use_inline: bool,
    base_level: nat,
    in_tail: bool,
)
    requires
        0 <= n <= m <= xs.len(),
        tails_ok(xs, m, insist_head, use_inline, base_level, in_tail),
    ensures
        tails_ok(xs, n, insist_head, use_inline, base_level, in_tail),
    decreases m - n,
{
    if n < m {
        lemma_tails_mono(xs, n, m - 1, insist_head, use_inline, base_level, in_tail);
    }
}

/// The leaf or the empty list at `n - 1` after a boxed or mixed expression.
proof fn glue_bend(
    p: Seq<char>,
    r0: Reader,
    a: Reader,
    xs: Seq<Tree>,
    n: int,
    insist_head: bool,
    use_inline: bool,
    base_level: nat,
    in_tail: bool,
    missing: nat,
) -> (r: Reader)
    requires
        step_pre(p, r0, a, xs, n, insist_head, use_inline, base_level, in_tail, missing),
        is_bended(
            tree_run(xs, n - 1, insist_head, use_inline, base_level, in_tail).prev,
            kind_of(xs[n - 1]),
        ),
    ensures
        step_post(p, r0, r, xs, n, insist_head, use_inline, base_level, in_tail, missing),
{
    let idx = n - 1;
    let st = tree_run(xs, idx, insist_head, use_inline, base_level, in_tail);
    let after = tree_run(xs, n, insist_head, use_inline, base_level, in_tail);
    let t = xs[idx];
    let q = p + st.text;
    let chunk = chunk_text(xs, idx, st.prev, st.level, insist_head, use_inline, in_tail);
    let ef = entry_nest(r0, base_level, missing);
    let k = seat(r0, xs, idx, insist_head, use_inline, base_level, in_tail, missing);
    assert(p + after.text =~= q + chunk);
    assert(all_lexable(t));
    lemma_deepest_mono(xs, n, xs.len() as int, insist_head, use_inline, base_level, in_tail);
    lemma_seat_push(r0, xs, n, insist_head, use_inline, base_level, in_tail, missing);
    assert(n > 1);
    match t {
        Tree::Leaf(_) => {},
        Tree::List(ys) => {
            assert(ys =~= Seq::<Tree>::empty());
            assert(node_text(t) =~= seq!['(', ')']);
        },
    }
    assert(chunk == newline_text(st.level + 1) + seq![',', ' '] + node_text(t));
    assert(raw_child(xs, idx, st.prev, st.level, insist_head, use_inline, in_tail) == seq![t]);
    read_bend(q, a, t, ef.done, k, st.level)
}

/// The item at `n - 1` on the current line: a leaf, or a list in parentheses.
proof fn glue_item(
    p: Seq<char>,
    r0: Reader,
    a: Reader,
    xs: Seq<Tree>,
    n: int,
    insist_head: bool,
    use_inline: bool,
    base_level: nat,
    in_tail: bool,
    missing: nat,
) -> (r: Reader)
    requires
        step_pre(p, r0, a, xs, n, insist_head, use_inline, base_level, in_tail, missing),
        ({
            let st = tree_run(xs, n - 1, insist_head, use_inline, base_level, in_tail);
            let kind = kind_of(xs[n - 1]);
            &&& !is_bended(st.prev, kind)
            &&& (xs[n - 1] is List ==> !is_at_tail(xs.len(), n - 1, st.prev, in_tail) && is_inline(
                kind,
                n - 1,
                st.prev,
                insist_head,
                use_inline,
            ))
            &&& (n == 1 && xs[0] == empty_list() ==> insist_head)
        }),
    ensures
        step_post(p, r0, r, xs, n, insist_head, use_inline, base_level, in_tail, missing),
{
    let idx = n - 1;
    let st = tree_run(xs, idx, insist_head, use_inline, base_level, in_tail);
    let after = tree_run(xs, n, insist_head, use_inline, base_level, in_tail);
    let t = xs[idx];
    let kind = kind_of(t);
    let q = p + st.text;
    let chunk = chunk_text(xs, idx, st.prev, st.level, insist_head, use_inline, in_tail);
    let ef = entry_nest(r0, base_level, missing);
    let k = seat(r0, xs, idx, insist_head, use_inline, base_level, in_tail, missing);
    assert(p + after.text =~= q + chunk);
    assert(all_lexable(t));
    lemma_seat_start(r0, xs, insist_head, use_inline, base_level, in_tail, missing);
    lemma_seat_append(r0, xs, n, insist_head, use_inline, base_level, in_tail, missing);
    assert(raw_child(xs, idx, st.prev, st.level, insist_head, use_inline, in_tail) == seq![t]);
    match t {
        Tree::Leaf(_) => {},
        Tree::List(ys) => {
            assert(inline_text(ys) == node_text(t));
            if ys.len() == 0 {
                assert(ys =~= Seq::<Tree>::empty());
                assert(node_text(t) =~= seq!['(', ')']);
            }
        },
    }
    if n > 1 {
        lemma_prev_not_nil(xs, idx, insist_head, use_inline, base_level, in_tail);
        assert(st.prev == WriterNode::Leaf || st.prev == WriterNode::SimpleExpr);
        assert(chunk =~= seq![' '] + node_text(t));
        assert(q + chunk =~= q + seq![' '] + node_text(t));
        read_next_item(q, a, t, ef.done, k, st.level)
    } else {
        assert(chunk == node_text(t));
        lemma_open_frames_more(r0.nest.frames, 0);
        read_first_item(q, r0, t, base_level)
    }
}

/// The empty list as the first item, where it is not asked to stand on
/// the line: it is written after a line break.
proof fn glue_empty_first(
    p: Seq<char>,
    r0: Reader,
    xs: Seq<Tree>,
    insist_head: bool,
    use_inline: bool,
    base_level: nat,
    in_tail: bool,
    missing: nat,
) -> (r: Reader)
    requires
        step_pre(p, r0, r0, xs, 1, insist_head, use_inline, base_level, in_tail, missing),
        xs[0] == empty_list(),
        !insist_head,
    ensures
        step_post(p, r0, r, xs, 1, insist_head, use_inline, base_level, in_tail, missing),
{
    let st = tree_run(xs, 0, insist_head, use_inline, base_level, in_tail);
    let after = tree_run(xs, 1, insist_head, use_inline, base_level, in_tail);
    let t = xs[0];
    let q = p + st.text;
    let chunk = chunk_text(xs, 0, st.prev, st.level, insist_head, use_inline, in_tail);
    assert(p + after.text =~= q + chunk);
    lemma_seat_start(r0, xs, insist_head, use_inline, base_level, in_tail, missing);
    lemma_seat_append(r0, xs, 1, insist_head, use_inline, base_level, in_tail, missing);
    lemma_deepest_mono(xs, 0, xs.len() as int, insist_head, use_inline, base_level, in_tail);
    assert(raw_child(xs, 0, st.prev, st.level, insist_head, use_inline, in_tail) == seq![t]);
    assert(chunk == newline_text(base_level) + seq!['(', ')']);
    read_first_empty(q, r0, base_level, missing)
}

/// The list at `n - 1` after `$`.
proof fn glue_tail(
    p: Seq<char>,
    r0: Reader,
    a: Reader,
    xs: Seq<Tree>,
    n: int,
    insist_head: bool,
    use_inline: bool,
    base_level: nat,
    in_tail: bool,
    missing: nat,
) -> (r: Reader)
    requires
        step_pre(p, r0, a, xs, n, insist_head, use_inline, base_level, in_tail, missing),
        xs[n - 1] is List,
        is_at_tail(
            xs.len(),
            n - 1,
            tree_run(xs, n - 1, insist_head, use_inline, base_level, in_tail).prev,
            in_tail,
        ),
    ensures
        step_post(p, r0, r, xs, n, insist_head, use_inline, base_level, in_tail, missing),
    decreases xs, n, 0nat,
{
    let idx = n - 1;
    let st = tree_run(xs, idx, insist_head, use_inline, base_level, in_tail);
    let after = tree_run(xs, n, insist_head, use_inline, base_level, in_tail);
    let t = xs[idx];
    let ys = t->List_0;
    let kind = kind_of(t);
    let q = p + st.text;
    let chunk = chunk_text(xs, idx, st.prev, st.level, insist_head, use_inline, in_tail);
    let ef = entry_nest(r0, base_level, missing);
    let k = seat(r0, xs, idx, insist_head, use_inline, base_level, in_tail, missing);
    assert(p + after.text =~= q + chunk);
    assert(all_lexable(t));
    assert(!is_bended(st.prev, kind));
    lemma_deepest_mono(xs, n, xs.len() as int, insist_head, use_inline, base_level, in_tail);
    lemma_tails_mono(xs, n, xs.len() as int, insist_head, use_inline, base_level, in_tail);
    lemma_seat_append(r0, xs, n, insist_head, use_inline, base_level, in_tail, missing);
    if ys.len() == 0 {
        assert(ys =~= Seq::<Tree>::empty());
        assert(chunk == seq![' '] + seq!['$']);
        read_tail_empty(q, a, ef.done, k, st.level, use_inline)
    } else {
        assert(chunk == seq![' '] + (seq!['$', ' '] + tree_text(
            ys,
            false,
            use_inline,
            st.level,
            true,
        )));
        read_tail(q, a, ys, ef.done, k, st.level, use_inline)
    }
}

/// How the list at `n - 1` is written on lines of its own: whether
/// after a line break, or with one of its own at the start.
proof fn lemma_deeper_form(
    xs: Seq<Tree>,
    n: int,
    insist_head: bool,
    use_inline: bool,
    base_level: nat,
    in_tail: bool,
) -> (explicit: bool)
    requires
        1 <= n <= xs.len(),
        all_lexable_items(xs),
        xs[n - 1] is List,
        ({
            let st = tree_run(xs, n - 1, insist_head, use_inline, base_level, in_tail);
            &&& !is_at_tail(xs.len(), n - 1, st.prev, in_tail)
            &&& !is_inline(kind_of(xs[n - 1]), n - 1, st.prev, insist_head, use_inline)
        }),
    ensures
        ({
            let st = tree_run(xs, n - 1, insist_head, use_inline, base_level, in_tail);
            let ys = xs[n - 1]->List_0;
            let head = wants_head(st.prev);
            let kind = kind_of(xs[n - 1]);
            let next = next_prev(st.prev, kind, n - 1, insist_head, use_inline);
            &&& ys.len() > 0
            &&& all_lexable_items(ys)
            &&& chunk_text(xs, n - 1, st.prev, st.level, insist_head, use_inline, in_tail) == (
            if explicit {
                newline_text(st.level + 1)
            } else {
                Seq::<char>::empty()
            }) + tree_text(ys, head, use_inline, st.level + 1, false)
            &&& raw_child(xs, n - 1, st.prev, st.level, insist_head, use_inline, in_tail) == seq![
                Tree::List(raw_items(ys, head, use_inline, st.level + 1, false)),
            ]
            &&& !is_bended(st.prev, kind)
            &&& (next == WriterNode::Expr || next == WriterNode::BoxedExpr)
            &&& (explicit ==> ys[0] is Leaf || head)
            &&& (!explicit ==> ys[0] is List && !head && (st.prev == WriterNode::Nil || st.prev
                == WriterNode::Leaf || st.prev == WriterNode::SimpleExpr))
        }),
{
    let idx = n - 1;
    let st = tree_run(xs, idx, insist_head, use_inline, base_level, in_tail);
    let t = xs[idx];
    let ys = t->List_0;
    let kind = kind_of(t);
    let chunk = chunk_text(xs, idx, st.prev, st.level, insist_head, use_inline, in_tail);
    assert(all_lexable(t));
    assert(kind != WriterNode::Leaf);
    let head = wants_head(st.prev);
    lemma_first_char(ys, head, use_inline, st.level + 1, false);
    let content = tree_text(ys, head, use_inline, st.level + 1, false);
    let explicit = if kind == WriterNode::SimpleExpr {
        true
    } else if kind == WriterNode::Expr {
        !starts_with_newline(content)
    } else {
        head
    };
    if kind == WriterNode::SimpleExpr {
        assert(ys[0] is Leaf);
    } else if kind == WriterNode::BoxedExpr {
        assert(ys[0] is List);
    }
    assert(chunk =~= (if explicit {
        newline_text(st.level + 1)
    } else {
        Seq::<char>::empty()
    }) + content);
    explicit
}

/// The list at `n - 1` on lines of its own is written no deeper than
/// the list around it, and has no tail that starts with an empty list.
proof fn lemma_child_depth(
    xs: Seq<Tree>,
    n: int,
    insist_head: bool,
    use_inline: bool,
    base_level: nat,
    in_tail: bool,
)
    requires
        1 <= n <= xs.len(),
        xs[n - 1] is List,
        tails_ok(xs, xs.len() as int, insist_head, use_inline, base_level, in_tail),
        ({
            let st = tree_run(xs, n - 1, insist_head, use_inline, base_level, in_tail);
            &&& !is_at_tail(xs.len(), n - 1, st.prev, in_tail)
            &&& !is_inline(kind_of(xs[n - 1]), n - 1, st.prev, insist_head, use_inline)
        }),
    ensures
        ({
            let st = tree_run(xs, n - 1, insist_head, use_inline, base_level, in_tail);
            let ys = xs[n - 1]->List_0;
            &&& deepest(
                ys,
                ys.len() as int,
                wants_head(st.prev),
                use_inline,
                st.level + 1,
                false,
            ) <= deepest(xs, xs.len() as int, insist_head, use_inline, base_level, in_tail)
            &&& tails_ok(ys, ys.len() as int, wants_head(st.prev), use_inline, st.level + 1, false)
        }),
{
    lemma_deepest_mono(xs, n, xs.len() as int, insist_head, use_inline, base_level, in_tail);
    lemma_tails_mono(xs, n, xs.len() as int, insist_head, use_inline, base_level, in_tail);
}

/// The list at `n - 1` on lines of its own, after other items.
proof fn glue_deeper_later(
    p: Seq<char>,
    r0: Reader,
    a: Reader,
    xs: Seq<Tree>,
    n: int,
    insist_head: bool,
    use_inline: bool,
    base_level: nat,
    in_tail: bool,
    missing: nat,
) -> (r: Reader)
    requires
        step_pre(p, r0, a, xs, n, insist_head, use_inline, base_level, in_tail, missing),
        n > 1,
        xs[n - 1] is List,
        ({
            let st = tree_run(xs, n - 1, insist_head, use_inline, base_level, in_tail);
            &&& !is_at_tail(xs.len(), n - 1, st.prev, in_tail)
            &&& !is_inline(kind_of(xs[n - 1]), n - 1, st.prev, insist_head, use_inline)
        }),
    ensures
        step_post(p, r0, r, xs, n, insist_head, use_inline, base_level, in_tail, missing),
    decreases xs, n, 0nat,
{
    let idx = n - 1;
    let st = tree_run(xs, idx, insist_head, use_inline, base_level, in_tail);
    let after = tree_run(xs, n, insist_head, use_inline, base_level, in_tail);
    let ys = xs[idx]->List_0;
    let q = p + st.text;
    let chunk = chunk_text(xs, idx, st.prev, st.level, insist_head, use_inline, in_tail);
    let ef = entry_nest(r0, base_level, missing);
    let k = seat(r0, xs, idx, insist_head, use_inline, base_level, in_tail, missing);
    let head = wants_head(st.prev);
    assert(p + after.text =~= q + chunk);
    let explicit = lemma_deeper_form(xs, n, insist_head, use_inline, base_level, in_tail);
    lemma_seat_append(r0, xs, n, insist_head, use_inline, base_level, in_tail, missing);
    lemma_child_depth(xs, n, insist_head, use_inline, base_level, in_tail);
    lemma_prev_not_nil(xs, idx, insist_head, use_inline, base_level, in_tail);
    let r = read_deeper(q, a, ys, ef.done, k, st.level, head, use_inline, explicit);
    assert(after.level == st.level);
    assert(after.prev == WriterNode::Expr || after.prev == WriterNode::BoxedExpr);
    r
}

/// The list at `n - 1` on lines of its own, as the first item.
proof fn glue_deeper_first(
    p: Seq<char>,
    r0: Reader,
    xs: Seq<Tree>,
    insist_head: bool,
    use_inline: bool,
    base_level: nat,
    in_tail: bool,
    missing: nat,
) -> (r: Reader)
    requires
        step_pre(p, r0, r0, xs, 1, insist_head, use_inline, base_level, in_tail, missing),
        xs[0] is List,
        !is_inline(kind_of(xs[0]), 0, WriterNode::Nil, insist_head, use_inline),
    ensures
        step_post(p, r0, r, xs, 1, insist_head, use_inline, base_level, in_tail, missing),
    decreases xs, 1int, 0nat,
{
    let st = tree_run(xs, 0, insist_head, use_inline, base_level, in_tail);
    let after = tree_run(xs, 1, insist_head, use_inline, base_level, in_tail);
    let ys = xs[0]->List_0;
    let q = p + st.text;
    let chunk = chunk_text(xs, 0, st.prev, st.level, insist_head, use_inline, in_tail);
    let ef = entry_nest(r0, base_level, missing);
    assert(p + after.text =~= q + chunk);
    let explicit = lemma_deeper_form(xs, 1, insist_head, use_inline, base_level, in_tail);
    lemma_seat_start(r0, xs, insist_head, use_inline, base_level, in_tail, missing);
    lemma_seat_append(r0, xs, 1, insist_head, use_inline, base_level, in_tail, missing);
    lemma_child_depth(xs, 1, insist_head, use_inline, base_level, in_tail);
    assert(!insist_head);
    assert(xs[0] != empty_list());
    assert(!(r0.gap is Line));
    let r = read_deeper_first(q, r0, ys, base_level, missing, use_inline, explicit);
    assert(after.level == st.level);
    assert(after.prev == WriterNode::Expr || after.prev == WriterNode::BoxedExpr);
    r
}

/// Reads the text of the item at `n - 1`.
proof fn lemma_follow_step(
    p: Seq<char>,
    r0: Reader,
    a: Reader,
    xs: Seq<Tree>,
    n: int,
    insist_head: bool,
    use_inline: bool,
    base_level: nat,
    in_tail: bool,
    missing: nat,
) -> (r: Reader)
    requires
        step_pre(p, r0, a, xs, n, insist_head, use_inline, base_level, in_tail, missing),
    ensures
        step_post(p, r0, r, xs, n, insist_head, use_inline, base_level, in_tail, missing),
    decreases xs, n, 1nat,
{
    let idx = n - 1;
    let st = tree_run(xs, idx, insist_head, use_inline, base_level, in_tail);
    let t = xs[idx];
    let kind = kind_of(t);
    if is_bended(st.prev, kind) {
        glue_bend(p, r0, a, xs, n, insist_head, use_inline, base_level, in_tail, missing)
    } else {
        match t {
            Tree::Leaf(_) => {
                glue_item(p, r0, a, xs, n, insist_head, use_inline, base_level, in_tail, missing)
            },
            Tree::List(ys) => {
                if is_at_tail(xs.len(), idx, st.prev, in_tail) {
                    glue_tail(
                        p,
                        r0,
                        a,
                        xs,
                        n,
                        insist_head,
                        use_inline,
                        base_level,
                        in_tail,
                        missing,
                    )
                } else if is_inline(kind, idx, st.prev, insist_head, use_inline) {
                    if n == 1 && !insist_head && ys.len() == 0 {
                        assert(ys =~= Seq::<Tree>::empty());
                        glue_empty_first(
                            p,
                            r0,
                            xs,
                            insist_head,
                            use_inline,
                            base_level,
                            in_tail,
                            missing,
                        )
                    } else {
                        if n == 1 && xs[0] == empty_list() {
                            assert(ys.len() == 0);
                        }
                        glue_item(
                            p,
                            r0,
                            a,
                            xs,
                            n,
                            insist_head,
                            use_inline,
                            base_level,
                            in_tail,
                            missing,
                        )
                    }
                } else if n > 1 {
                    glue_deeper_later(
                        p,
                        r0,
                        a,
                        xs,
                        n,
                        insist_head,
                        use_inline,
                        base_level,
                        in_tail,
                        missing,
                    )
                } else {
                    glue_deeper_first(
                        p,
                        r0,
                        xs,
                        insist_head,
                        use_inline,
                        base_level,
                        in_tail,
                        missing,
                    )
                }
            },
        }
    }
}

} // verus!
