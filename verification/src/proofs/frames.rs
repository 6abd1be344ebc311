//! The lists that are open while indented code is read, one for each
//! level of indentation, and how the tokens of a line change them.
use crate::builder::{between, build_spec, BuildState};
use crate::error::KindView;
use crate::indent::{copies, indent_run, indent_step, resolve_spec};
use crate::primes::{Token, Tree};
use crate::proofs::building::{
    feed, lemma_build_run_feed, lemma_feed_concat, lemma_feed_flat, lemma_feed_one,
    lemma_flat_indent_free, lemma_indent_run_plain,
};
use crate::proofs::lexing::flat;
use vstd::prelude::*;

verus! {

/// The lists that are open at a point between two items of indented
/// code. `frames[j]` holds the items read so far of the list that the
/// line at level `j` opened; the last frame belongs to the current line.
pub struct Nest {
    /// The top-level expressions that are complete.
    pub done: Seq<Tree>,
    /// The items of the open lists, the outermost first; never empty.
    pub frames: Seq<Seq<Tree>>,
    /// Whether any token was emitted yet.
    pub started: bool,
}

/// The state of the builder when the lists of `n` are open.
pub open spec fn build_state(n: Nest) -> BuildState {
    BuildState {
        done: n.done,
        inside: true,
        stack: n.frames.drop_last(),
        pointer: n.frames.last(),
    }
}

/// The state of the builder after the opening parenthesis of the first line.
pub open spec fn first_open() -> BuildState {
    BuildState { inside: true, ..between(Seq::empty()) }
}

/// Whether `n` is what the resolver and the builder hold after the tokens `ts`.
pub open spec fn holds(ts: Seq<Token>, n: Nest) -> bool {
    let st = indent_run(ts);
    &&& n.frames.len() >= 1
    &&& st.level == n.frames.len() - 1
    &&& (st.acc.len() > 0) == n.started
    &&& feed(first_open(), st.acc) == Ok::<BuildState, KindView>(build_state(n))
}

/// The frames with the last one closed: it becomes a list in the frame below.
pub open spec fn close_one(frames: Seq<Seq<Tree>>) -> Seq<Seq<Tree>> {
    frames.drop_last().drop_last().push(
        frames[frames.len() - 2].push(Tree::List(frames.last())),
    )
}

/// The frames with the last `j` closed, each into the one below it.
pub open spec fn close_frames(frames: Seq<Seq<Tree>>, j: nat) -> Seq<Seq<Tree>>
    decreases j,
{
    if j == 0 || frames.len() < 2 {
        frames
    } else {
        close_frames(close_one(frames), (j - 1) as nat)
    }
}

/// The frames closed down to the level `d`: `d + 1` frames are left.
pub open spec fn collapse_to(frames: Seq<Seq<Tree>>, d: nat) -> Seq<Seq<Tree>> {
    close_frames(frames, (frames.len() - 1 - d) as nat)
}

/// The frames with `j` empty ones added.
pub open spec fn open_frames(frames: Seq<Seq<Tree>>, j: nat) -> Seq<Seq<Tree>> {
    frames + Seq::new(j, |i: int| Seq::<Tree>::empty())
}

/// The lists after the previous expression at the current level has
/// ended and the next has begun: the last frame is closed and an empty
/// one is opened; at level 0 the closed list is a complete expression.
pub open spec fn next_line(n: Nest) -> Nest {
    if n.frames.len() >= 2 {
        Nest { frames: close_one(n.frames).push(Seq::empty()), ..n }
    } else {
        Nest { done: n.done.push(Tree::List(n.frames[0])), frames: seq![Seq::empty()], ..n }
    }
}

/// The lists after a line at level `level` has begun.
pub open spec fn adjust(n: Nest, level: nat) -> Nest {
    let k = (n.frames.len() - 1) as nat;
    if level > k {
        Nest { frames: open_frames(n.frames, (level - k) as nat), started: true, ..n }
    } else if !n.started {
        n
    } else {
        next_line(Nest { frames: collapse_to(n.frames, level), ..n })
    }
}

/// The lists with the item `t` added to the current line.
pub open spec fn add_item(n: Nest, t: Tree) -> Nest {
    Nest { frames: n.frames.drop_last().push(n.frames.last().push(t)), started: true, ..n }
}

pub proof fn lemma_close_frames_len(frames: Seq<Seq<Tree>>, j: nat)
    requires
        j < frames.len(),
    ensures
        close_frames(frames, j).len() == frames.len() - j,
    decreases j,
{
    if j > 0 {
        lemma_close_frames_len(close_one(frames), (j - 1) as nat);
    }
}

/// Opening parentheses open frames.
proof fn lemma_feed_opens(st: BuildState, j: nat)
    requires
        st.inside,
    ensures
        feed(st, copies(Token::Open, j)) == Ok::<BuildState, KindView>(
            BuildState {
                stack: open_frames(st.stack.push(st.pointer), j).drop_last(),
                pointer: open_frames(st.stack.push(st.pointer), j).last(),
                ..st
            },
        ),
    decreases j,
{
    let all = st.stack.push(st.pointer);
    if j == 0 {
        assert(copies(Token::Open, 0) =~= Seq::<Token>::empty());
        assert(open_frames(all, 0) =~= all);
        assert(all.drop_last() =~= st.stack);
    } else {
        let fewer = (j - 1) as nat;
        lemma_feed_opens(st, fewer);
        assert(copies(Token::Open, j) =~= copies(Token::Open, fewer) + seq![Token::Open]);
        lemma_feed_concat(st, copies(Token::Open, fewer), seq![Token::Open]);
        let mid = BuildState {
            stack: open_frames(all, fewer).drop_last(),
            pointer: open_frames(all, fewer).last(),
            ..st
        };
        lemma_feed_one(mid, Token::Open);
        assert(mid.stack.push(mid.pointer) =~= open_frames(all, fewer));
        assert(open_frames(all, j) =~= open_frames(all, fewer).push(Seq::empty()));
        assert(open_frames(all, j).drop_last() =~= open_frames(all, fewer));
    }
}

/// Closing parentheses close frames, as long as a frame is left.
proof fn lemma_feed_closes(st: BuildState, j: nat)
    requires
        st.inside,
        j <= st.stack.len(),
    ensures
        feed(st, copies(Token::Close, j)) == Ok::<BuildState, KindView>(
            BuildState {
                stack: close_frames(st.stack.push(st.pointer), j).drop_last(),
                pointer: close_frames(st.stack.push(st.pointer), j).last(),
                ..st
            },
        ),
    decreases j,
{
    let all = st.stack.push(st.pointer);
    if j == 0 {
        assert(copies(Token::Close, 0) =~= Seq::<Token>::empty());
        assert(all.drop_last() =~= st.stack);
    } else {
        let fewer = (j - 1) as nat;
        assert(copies(Token::Close, j) =~= seq![Token::Close] + copies(Token::Close, fewer));
        lemma_feed_concat(st, seq![Token::Close], copies(Token::Close, fewer));
        lemma_feed_one(st, Token::Close);
        let mid = BuildState {
            stack: st.stack.drop_last(),
            pointer: st.stack.last().push(Tree::List(st.pointer)),
            ..st
        };
        lemma_feed_closes(mid, fewer);
        assert(mid.stack.push(mid.pointer) =~= close_one(all));
    }
}

/// The tokens of an item on the current line add the item to the last frame.
pub proof fn lemma_holds_item(ts: Seq<Token>, n: Nest, t: Tree)
    requires
        holds(ts, n),
    ensures
        holds(ts + flat(t), add_item(n, t)),
{
    lemma_flat_indent_free(t);
    lemma_indent_run_plain(ts, flat(t));
    let st = indent_run(ts);
    lemma_feed_concat(first_open(), st.acc, flat(t));
    lemma_feed_flat(build_state(n), t);
    let after = add_item(n, t);
    assert(after.frames.drop_last() =~= n.frames.drop_last());
    assert(after.frames.last() == n.frames.last().push(t));
}

/// The indentation of a line changes the frames as `adjust` says.
pub proof fn lemma_holds_indent(ts: Seq<Token>, n: Nest, level: u8)
    requires
        holds(ts, n),
    ensures
        holds(ts.push(Token::Indent(level)), adjust(n, level as nat)),
{
    let st = indent_run(ts);
    let next = ts.push(Token::Indent(level));
    assert(next.drop_last() =~= ts);
    assert(next.last() == Token::Indent(level));
    let after = indent_run(next);
    assert(after == indent_step(st, Token::Indent(level)));
    let k = (n.frames.len() - 1) as nat;
    let bs = build_state(n);
    assert(bs.stack.push(bs.pointer) =~= n.frames);
    if level > st.level {
        let j = (level - st.level) as nat;
        lemma_feed_concat(first_open(), st.acc, copies(Token::Open, j));
        lemma_feed_opens(bs, j);
        assert(copies(Token::Open, j).len() > 0);
    } else if level < st.level {
        let j = (st.level - level) as nat;
        let closes = copies(Token::Close, j);
        let pair = seq![Token::Close, Token::Open];
        assert(after.acc =~= st.acc + (closes + pair));
        lemma_feed_concat(first_open(), st.acc, closes + pair);
        lemma_feed_concat(bs, closes, pair);
        lemma_feed_closes(bs, j);
        lemma_close_frames_len(n.frames, j);
        let low = collapse_to(n.frames, level as nat);
        let mid = BuildState { stack: low.drop_last(), pointer: low.last(), ..bs };
        lemma_feed_pair(mid);
        assert(mid.stack.push(mid.pointer) =~= low);
        // some token had been emitted: the level was above 0
        assert(st.acc.len() > 0) by {
            lemma_level_needs_tokens(ts);
        }
    } else if st.acc.len() > 0 {
        let pair = seq![Token::Close, Token::Open];
        lemma_feed_concat(first_open(), st.acc, pair);
        lemma_feed_pair(bs);
        assert(collapse_to(n.frames, level as nat) == n.frames);
    } else {
    }
}

/// A closing and an opening parenthesis end the current expression and
/// begin the next.
proof fn lemma_feed_pair(st: BuildState)
    requires
        st.inside,
    ensures
        feed(st, seq![Token::Close, Token::Open]) == Ok::<BuildState, KindView>(
            build_state(
                next_line(
                    Nest { done: st.done, frames: st.stack.push(st.pointer), started: true },
                ),
            ),
        ),
{
    let pair = seq![Token::Close, Token::Open];
    assert(pair =~= seq![Token::Close] + seq![Token::Open]);
    lemma_feed_concat(st, seq![Token::Close], seq![Token::Open]);
    lemma_feed_one(st, Token::Close);
    let all = st.stack.push(st.pointer);
    if st.stack.len() == 0 {
        let mid = between(st.done.push(Tree::List(st.pointer)));
        lemma_feed_one(mid, Token::Open);
        let after = next_line(Nest { done: st.done, frames: all, started: true });
        assert(after.frames.drop_last() =~= Seq::<Seq<Tree>>::empty());
    } else {
        let mid = BuildState {
            stack: st.stack.drop_last(),
            pointer: st.stack.last().push(Tree::List(st.pointer)),
            ..st
        };
        lemma_feed_one(mid, Token::Open);
        let after = next_line(Nest { done: st.done, frames: all, started: true });
        assert(mid.stack.push(mid.pointer) =~= close_one(all));
        assert(after.frames.drop_last() =~= close_one(all));
    }
}

/// Above level 0 the resolver has emitted a token.
proof fn lemma_level_needs_tokens(ts: Seq<Token>)
    ensures
        indent_run(ts).level > 0 ==> indent_run(ts).acc.len() > 0,
    decreases ts.len(),
{
    if ts.len() > 0 {
        lemma_level_needs_tokens(ts.drop_last());
    }
}

/// Before any token, one empty list is open.
pub proof fn lemma_holds_start()
    ensures
        holds(
            Seq::empty(),
            Nest { done: Seq::empty(), frames: seq![Seq::empty()], started: false },
        ),
{
    let n = Nest { done: Seq::<Tree>::empty(), frames: seq![Seq::<Tree>::empty()], started: false };
    assert(n.frames.drop_last() =~= Seq::<Seq<Tree>>::empty());
}

/// At the end of the code, the open lists are closed: the expressions
/// are those done and the outermost open list with all others inside it.
pub proof fn lemma_holds_end(ts: Seq<Token>, n: Nest)
    requires
        holds(ts, n),
        n.started,
    ensures
        build_spec(resolve_spec(ts)) == Ok::<Seq<Tree>, KindView>(
            n.done.push(Tree::List(collapse_to(n.frames, 0)[0])),
        ),
{
    let st = indent_run(ts);
    let open = seq![Token::Open];
    let closes = copies(Token::Close, st.level as nat);
    let close = seq![Token::Close];
    let all = resolve_spec(ts);
    assert(all =~= open + (st.acc + (closes + close)));
    lemma_build_run_feed(all);
    lemma_feed_concat(between(Seq::empty()), open, st.acc + (closes + close));
    lemma_feed_one(between(Seq::empty()), Token::Open);
    lemma_feed_concat(first_open(), st.acc, closes + close);
    let bs = build_state(n);
    assert(bs.stack.push(bs.pointer) =~= n.frames);
    lemma_feed_concat(bs, closes, close);
    lemma_feed_closes(bs, st.level as nat);
    lemma_close_frames_len(n.frames, st.level as nat);
    let low = collapse_to(n.frames, 0);
    let last = BuildState { stack: low.drop_last(), pointer: low.last(), ..bs };
    assert(low.drop_last() =~= Seq::<Seq<Tree>>::empty());
    lemma_feed_one(last, Token::Close);
}

} // verus!
