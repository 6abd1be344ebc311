//! The two rewrites of a parsed tree: `$` nests what follows it, a list
//! that starts with `,` is spliced into the list around it.
use crate::primes::{forest, lemma_forest_push, lemma_list_view, Cirru, Tree};
use crate::text::is_char;
use vstd::prelude::*;
use vstd::string::*;

verus! {

/// Whether `t` is the leaf `$`.
pub open spec fn is_dollar(t: Tree) -> bool {
    t == Tree::Leaf(seq!['$'])
}

/// Whether `t` is the leaf `,`.
pub open spec fn is_comma(t: Tree) -> bool {
    t == Tree::Leaf(seq![','])
}

/// Whether `t` is a list whose first item is the leaf `,`.
pub open spec fn is_comma_list(t: Tree) -> bool {
    t matches Tree::List(ys) && ys.len() > 0 && is_comma(ys[0])
}

/// The items `xs` with each `$` resolved at this level: the first `$` is
/// replaced by one list that holds what follows it, resolved in the same
/// way; what stands before it stays.
pub open spec fn fold_dollar(xs: Seq<Tree>) -> Seq<Tree>
    decreases xs.len(),
{
    if xs.len() == 0 {
        xs
    } else if is_dollar(xs[0]) {
        seq![Tree::List(fold_dollar(xs.drop_first()))]
    } else {
        seq![xs[0]] + fold_dollar(xs.drop_first())
    }
}

/// The tree `t` with every `$` resolved, in the lists inside it first.
pub open spec fn dollar_tree(t: Tree) -> Tree
    decreases t,
{
    match t {
        Tree::Leaf(_) => t,
        Tree::List(xs) => Tree::List(fold_dollar(dollar_each(xs))),
    }
}

/// Each of the items `xs` with every `$` inside it resolved.
pub open spec fn dollar_each(xs: Seq<Tree>) -> Seq<Tree>
    decreases xs,
{
    Seq::new(
        xs.len(),
        |i: int|
            if 0 <= i < xs.len() {
                dollar_tree(xs[i])
            } else {
                Tree::List(xs)
            },
    )
}

/// The items `xs` with every `$` resolved: in each item first, then at
/// this level.
pub open spec fn dollar_list(xs: Seq<Tree>) -> Seq<Tree> {
    fold_dollar(dollar_each(xs))
}

/// What the item `t` leaves in the list around it when commas are
/// resolved. A list that starts with `,` gives way to its other items,
/// resolved as items of the list around it; a leaf `,` leaves nothing;
/// any other list stays, resolved inside; any other leaf stays.
pub open spec fn comma_item(t: Tree) -> Seq<Tree>
    decreases t,
{
    match t {
        Tree::Leaf(_) => if is_comma(t) {
            Seq::empty()
        } else {
            seq![t]
        },
        Tree::List(ys) => if is_comma_list(t) {
            comma_list(ys.drop_first())
        } else {
            seq![Tree::List(comma_list(ys))]
        },
    }
}

/// The items `xs` with every comma resolved: what each item leaves, in order.
pub open spec fn comma_list(xs: Seq<Tree>) -> Seq<Tree>
    decreases xs,
{
    if xs.len() == 0 {
        xs
    } else {
        comma_list(xs.drop_last()) + comma_item(xs.last())
    }
}

/// The nodes of `v` in reverse order.
fn reverse_nodes(v: Vec<Cirru>) -> (r: Vec<Cirru>)
    ensures
        forest(r@) == forest(v@).reverse(),
{
    let ghost orig = v@;
    let mut v = v;
    let mut r: Vec<Cirru> = Vec::new();
    assert(forest(r@) =~= forest(orig.skip(v.len() as int)).reverse());
    while v.len() > 0
        invariant
            v@ == orig.take(v.len() as int),
            v.len() <= orig.len(),
            forest(r@) == forest(orig.skip(v.len() as int)).reverse(),
        decreases v.len(),
    {
        let ghost k = v.len() as int;
        let x = v.pop().unwrap();
        proof {
            lemma_forest_push(r@, x);
            assert(x == orig[k - 1]);
            assert(v@ =~= orig.take(k - 1));
            assert(forest(orig.skip(k - 1)).reverse() =~= forest(orig.skip(k)).reverse().push(
                x@,
            ));
        }
        r.push(x);
    }
    assert(forest(orig.skip(0)) =~= forest(orig));
    r
}

/// Resolves `$` in place: `a $ b c` becomes `a (b c)`. The lists inside
/// are resolved first, then this level, where each `$` is replaced by one
/// list of all that follows it.
pub fn resolve_dollar(xs: &mut Vec<Cirru>)
    ensures
        forest(final(xs)@) == dollar_list(forest(old(xs)@)),
    decreases *old(xs),
{
    let ghost orig = xs@;
    let ghost mapped = dollar_each(forest(orig));
    let mut rev: Vec<Cirru> = Vec::new();
    proof {
        assert(mapped.skip(orig.len() as int) =~= Seq::<Tree>::empty());
        assert(forest(rev@) =~= fold_dollar(mapped.skip(orig.len() as int)).reverse());
    }
    while xs.len() > 0
        invariant
            orig == old(xs)@,
            mapped == dollar_each(forest(orig)),
            xs.len() <= orig.len(),
            xs@ == orig.take(xs.len() as int),
            forest(rev@) == fold_dollar(mapped.skip(xs.len() as int)).reverse(),
        decreases xs.len(),
    {
        let ghost k = xs.len() as int;
        let x = xs.pop().unwrap();
        proof {
            assert(x == orig[k - 1]);
            assert(x == old(xs)[k - 1]);
            assert(decreases_to!(*old(xs) => old(xs)[k - 1]));
            assert(xs@ =~= orig.take(k - 1));
            assert(mapped.skip(k - 1).drop_first() =~= mapped.skip(k));
            assert(mapped.skip(k - 1)[0] == dollar_tree(x@));
        }
        let ghost tail = fold_dollar(mapped.skip(k));
        match x {
            Cirru::Leaf(s) => {
                if is_char(s.as_str(), '$') {
                    let inner = reverse_nodes(rev);
                    rev = Vec::new();
                    let node = Cirru::List(inner);
                    proof {
                        lemma_list_view(inner);
                        assert(forest(inner@) =~= tail);
                        lemma_forest_push(rev@, node);
                        assert(forest(rev@.push(node)) =~= seq![Tree::List(tail)].reverse());
                    }
                    rev.push(node);
                } else {
                    let node = Cirru::Leaf(s);
                    proof {
                        lemma_forest_push(rev@, node);
                        assert((seq![node@] + tail).reverse() =~= tail.reverse().push(node@));
                    }
                    rev.push(node);
                }
            },
            Cirru::List(ys) => {
                let ghost before = ys;
                let mut ys = ys;
                proof {
                    assert(decreases_to!(x => before));
                    lemma_list_view(before);
                }
                resolve_dollar(&mut ys);
                let node = Cirru::List(ys);
                proof {
                    lemma_list_view(ys);
                    lemma_forest_push(rev@, node);
                    assert((seq![node@] + tail).reverse() =~= tail.reverse().push(node@));
                }
                rev.push(node);
            },
        }
    }
    let res = reverse_nodes(rev);
    proof {
        assert(mapped.skip(0) =~= mapped);
        assert(forest(res@) =~= fold_dollar(mapped));
    }
    *xs = res;
}

/// Appends to `out` the items of `items` with every comma resolved,
/// without the first item if `skip_head`.
fn comma_into(items: Vec<Cirru>, skip_head: bool, out: &mut Vec<Cirru>)
    requires
        skip_head ==> items.len() > 0,
    ensures
        forest(final(out)@) == forest(old(out)@) + comma_list(
            if skip_head {
                forest(items@).drop_first()
            } else {
                forest(items@)
            },
        ),
    decreases items,
{
    let ghost xs = forest(items@);
    let ghost from: int = if skip_head {
        1
    } else {
        0
    };
    let mut idx: usize = 0;
    proof {
        assert(forest(out@) + comma_list(xs.subrange(from, from)) =~= forest(out@));
    }
    for x in it: items
        invariant
            it.seq() == items@,
            xs == forest(items@),
            idx == it.index(),
            from == if skip_head {
                1int
            } else {
                0int
            },
            skip_head ==> items.len() > 0,
            forest(out@) == forest(old(out)@) + comma_list(
                xs.subrange(from, if idx < from {
                    from
                } else {
                    idx as int
                }),
            ),
    {
        let ghost i = idx as int;
        proof {
            assert(i < items.len());
            assert(x == items[i]);
            assert(decreases_to!(items => items[i]));
            assert(xs[i] == x@);
        }
        idx = idx + 1;
        if !(skip_head && idx == 1) {
            proof {
                assert(xs.subrange(from, i + 1).drop_last() =~= xs.subrange(from, i));
                assert(xs.subrange(from, i + 1).last() == x@);
            }
            let ghost before = forest(out@);
            let ghost prefix = comma_list(xs.subrange(from, i));
            match x {
                Cirru::Leaf(s) => {
                    if !is_char(s.as_str(), ',') {
                        let node = Cirru::Leaf(s);
                        proof {
                            lemma_forest_push(out@, node);
                            assert(before.push(node@) =~= forest(old(out)@) + (prefix + seq![node@]));
                        }
                        out.push(node);
                        assert(comma_item(x@) == seq![node@]);
                        assert(comma_list(xs.subrange(from, i + 1)) == prefix + comma_item(x@));
                    } else {
                        assert(before =~= forest(old(out)@) + (prefix + Seq::<Tree>::empty()));
                        assert(comma_item(x@) == Seq::<Tree>::empty());
                        assert(comma_list(xs.subrange(from, i + 1)) == prefix + comma_item(x@));
                    }
                },
                Cirru::List(ys) => {
                    proof {
                        lemma_list_view(ys);
                        assert(decreases_to!(x => ys));
                    }
                    if starts_with_comma(&ys) {
                        comma_into(ys, true, out);
                        assert(forest(out@) =~= forest(old(out)@) + (prefix + comma_list(
                            forest(ys@).drop_first(),
                        )));
                        assert(comma_list(xs.subrange(from, i + 1)) == prefix + comma_item(x@));
                    } else {
                        let mut inner: Vec<Cirru> = Vec::new();
                        comma_into(ys, false, &mut inner);
                        let node = Cirru::List(inner);
                        proof {
                            assert(forest(Seq::<Cirru>::empty()) + comma_list(forest(ys@))
                                =~= comma_list(forest(ys@)));
                            lemma_list_view(inner);
                            lemma_forest_push(out@, node);
                            assert(before.push(node@) =~= forest(old(out)@) + (prefix + seq![node@]));
                        }
                        out.push(node);
                        assert(comma_list(xs.subrange(from, i + 1)) == prefix + comma_item(x@));
                    }
                },
            }
        }
    }
    proof {
        assert(xs.subrange(from, xs.len() as int) =~= if skip_head {
            xs.drop_first()
        } else {
            xs
        });
    }
}

/// Whether the first of `ys` is the leaf `,`.
fn starts_with_comma(ys: &Vec<Cirru>) -> (r: bool)
    ensures
        r == is_comma_list(Tree::List(forest(ys@))),
{
    if ys.len() == 0 {
        false
    } else {
        match &ys[0] {
            Cirru::Leaf(s) => is_char(s.as_str(), ','),
            Cirru::List(_) => false,
        }
    }
}

/// Resolves commas in place: `a (, b c)` becomes `a b c`. A list that
/// starts with `,` is replaced by its other items, a leaf `,` that is
/// left over is dropped, and the lists that stay are resolved inside.
pub fn resolve_comma(xs: &mut Vec<Cirru>)
    ensures
        forest(final(xs)@) == comma_list(forest(old(xs)@)),
{
    let mut items: Vec<Cirru> = Vec::new();
    core::mem::swap(xs, &mut items);
    assert(forest(xs@) + comma_list(forest(items@)) =~= comma_list(forest(items@)));
    comma_into(items, false, xs);
}

} // verus!
