//! How closing and opening frames combine.
use crate::primes::Tree;
use crate::proofs::frames::{
    adjust, close_frames, close_one, collapse_to, lemma_close_frames_len, open_frames, Nest,
};
use crate::proofs::shape::{nested, seated};
use vstd::prelude::*;

verus! {

/// Closing some frames and then some more is closing all of them.
pub proof fn lemma_close_frames_add(frames: Seq<Seq<Tree>>, i: nat, j: nat)
    requires
        i + j < frames.len(),
    ensures
        close_frames(frames, i + j) == close_frames(close_frames(frames, i), j),
    decreases i,
{
    if i > 0 {
        lemma_close_frames_add(close_one(frames), (i - 1) as nat, j);
    }
}

/// Closing down to a level and then to a lower one is closing down to the lower one.
pub proof fn lemma_collapse_twice(frames: Seq<Seq<Tree>>, m: nat, d: nat)
    requires
        d <= m < frames.len(),
    ensures
        collapse_to(collapse_to(frames, m), d) == collapse_to(frames, d),
        collapse_to(frames, m).len() == m + 1,
{
    let i = (frames.len() - 1 - m) as nat;
    let j = (m - d) as nat;
    lemma_close_frames_len(frames, i);
    lemma_close_frames_add(frames, i, j);
}

/// Closing one frame more.
pub proof fn lemma_collapse_step(frames: Seq<Seq<Tree>>, m: nat)
    requires
        m + 1 < frames.len(),
    ensures
        collapse_to(frames, m) == close_one(collapse_to(frames, m + 1)),
        collapse_to(frames, m + 1).len() == m + 2,
{
    lemma_collapse_twice(frames, m + 1, m);
    let mid = collapse_to(frames, m + 1);
    assert(collapse_to(mid, m) == close_frames(mid, 1));
    assert(close_frames(close_one(mid), 0) == close_one(mid));
}

/// Frames above some others close without touching those.
pub proof fn lemma_close_above(base: Seq<Seq<Tree>>, segs: Seq<Seq<Tree>>)
    requires
        segs.len() >= 1,
    ensures
        close_frames(base + segs, (segs.len() - 1) as nat) == base.push(nested(segs)),
    decreases segs.len(),
{
    if segs.len() == 1 {
        assert(base + segs =~= base.push(segs[0]));
    } else {
        let all = base + segs;
        assert(close_one(all) =~= base + close_one(segs));
        lemma_close_above(base, close_one(segs));
    }
}

/// Items before the first frame stay before what the frames close to.
pub proof fn lemma_nested_seated(front: Seq<Tree>, segs: Seq<Seq<Tree>>)
    requires
        segs.len() >= 1,
    ensures
        nested(seated(front, segs)) == front + nested(segs),
    decreases segs.len(),
{
    let s = seated(front, segs);
    if segs.len() == 1 {
        assert(s =~= seq![front + segs[0]]);
    } else {
        assert(close_one(s) =~= seated(front, close_one(segs))) by {
            if segs.len() == 2 {
                assert((front + segs[0]).push(Tree::List(segs[1])) =~= front + segs[0].push(
                    Tree::List(segs[1]),
                ));
            }
        }
        lemma_nested_seated(front, close_one(segs));
    }
}

/// Adding `j + 1` empty frames is adding `j` and then one.
pub proof fn lemma_open_frames_more(frames: Seq<Seq<Tree>>, j: nat)
    ensures
        open_frames(frames, j + 1) == open_frames(frames, j).push(Seq::empty()),
        open_frames(frames, 0) == frames,
        open_frames(frames, j).len() == frames.len() + j,
{
    assert(open_frames(frames, j + 1) =~= open_frames(frames, j).push(Seq::empty()));
    assert(open_frames(frames, 0) =~= frames);
}

/// A line one level below the current frames, or at a level that the
/// frames reach: the frames above the level before it are closed, and an
/// empty frame is opened. Nothing is done at level 0 by this.
pub proof fn lemma_adjust_descend(n: Nest, level: nat)
    requires
        level >= 1,
        n.started,
        n.frames.len() >= level,
    ensures
        adjust(n, level) == (Nest {
            frames: collapse_to(n.frames, (level - 1) as nat).push(Seq::empty()),
            ..n
        }),
        collapse_to(n.frames, (level - 1) as nat).len() == level,
{
    let k = (n.frames.len() - 1) as nat;
    if level > k {
        lemma_open_frames_more(n.frames, 0);
        assert(collapse_to(n.frames, (level - 1) as nat) == n.frames);
    } else {
        lemma_collapse_step(n.frames, (level - 1) as nat);
        lemma_collapse_twice(n.frames, (level - 1) as nat, (level - 1) as nat);
    }
}

/// A line deeper than the frames reach: empty frames are opened up to it.
pub proof fn lemma_adjust_open(n: Nest, level: nat)
    requires
        n.frames.len() >= 1,
        level >= n.frames.len(),
    ensures
        adjust(n, level) == (Nest {
            frames: open_frames(n.frames, (level + 1 - n.frames.len()) as nat),
            started: true,
            ..n
        }),
{
}

/// The length of the frames after a line at a level has begun.
pub proof fn lemma_adjust_len(n: Nest, level: nat)
    requires
        n.frames.len() >= 1,
        !n.started ==> n.frames.len() == 1,
    ensures
        adjust(n, level).frames.len() == level + 1,
        level >= 1 ==> adjust(n, level).done == n.done,
{
    let k = (n.frames.len() - 1) as nat;
    if level > k {
        lemma_open_frames_more(n.frames, (level - k) as nat);
    } else if !n.started {
    } else {
        lemma_collapse_twice(n.frames, level, level);
        let low = collapse_to(n.frames, level);
        assert(low.len() == level + 1);
    }
}

/// If the frames close to `low` and one more frame `top` at the level
/// above, they close to `low` with the list of `top` at its end.
pub proof fn lemma_collapse_child(frames: Seq<Seq<Tree>>, low: Seq<Seq<Tree>>, top: Seq<Tree>)
    requires
        low.len() >= 1,
        frames.len() >= low.len() + 1,
        collapse_to(frames, low.len()) == low.push(top),
    ensures
        collapse_to(frames, (low.len() - 1) as nat) == low.drop_last().push(
            low.last().push(Tree::List(top)),
        ),
{
    lemma_collapse_step(frames, (low.len() - 1) as nat);
    let mid = low.push(top);
    assert(mid.drop_last() =~= low);
    assert(close_one(mid) =~= low.drop_last().push(low.last().push(Tree::List(top))));
}

} // verus!
