//! The tree builder: from balanced tokens to trees, with an explicit stack.
use crate::error::{CirruError, CirruErrorKind, ErrorView, KindView};
use crate::indent::indent_free;
use crate::primes::{
    forest, lemma_forest_push, lemma_list_view, tokens, Cirru, CirruLexItem, Token, Tree,
};
use vstd::pervasive::unreached;
use vstd::prelude::*;
use vstd::string::*;

verus! {

/// What the builder holds between two tokens.
pub struct BuildState {
    /// The top-level expressions that are complete.
    pub done: Seq<Tree>,
    /// Whether a top-level expression is open.
    pub inside: bool,
    /// The items of the lists that are suspended, the outermost first.
    pub stack: Seq<Seq<Tree>>,
    /// The items of the innermost open list.
    pub pointer: Seq<Tree>,
}

/// The message of the error for a string token outside of all parentheses.
pub open spec fn stray_token_message() -> Seq<char> {
    "unexpected token outside of an expression"@
}

/// The message of the error for an indentation token, which the builder never accepts.
pub open spec fn stray_indent_message() -> Seq<char> {
    "indentation was not resolved"@
}

/// The state between top-level expressions, `done` of which are complete.
pub open spec fn between(done: Seq<Tree>) -> BuildState {
    BuildState { done, inside: false, stack: Seq::empty(), pointer: Seq::empty() }
}

/// The state after the token `t`, or the kind of error that `t` is.
pub open spec fn build_step(st: BuildState, t: Token) -> Result<BuildState, KindView> {
    if !st.inside {
        match t {
            Token::Open => Ok(BuildState { inside: true, ..between(st.done) }),
            Token::Close => Err(KindView::UnexpectedCloseParen),
            Token::Str(_) => Err(KindView::Other(stray_token_message())),
            Token::Indent(_) => Err(KindView::Other(stray_indent_message())),
        }
    } else {
        match t {
            Token::Open => Ok(
                BuildState { stack: st.stack.push(st.pointer), pointer: Seq::empty(), ..st },
            ),
            Token::Close => if st.stack.len() == 0 {
                Ok(between(st.done.push(Tree::List(st.pointer))))
            } else {
                Ok(
                    BuildState {
                        stack: st.stack.drop_last(),
                        pointer: st.stack.last().push(Tree::List(st.pointer)),
                        ..st
                    },
                )
            },
            Token::Str(s) => Ok(BuildState { pointer: st.pointer.push(Tree::Leaf(s)), ..st }),
            Token::Indent(_) => Err(KindView::Other(stray_indent_message())),
        }
    }
}

/// The state after all the tokens `ts`, or the first error.
pub open spec fn build_run(ts: Seq<Token>) -> Result<BuildState, KindView>
    decreases ts.len(),
{
    if ts.len() == 0 {
        Ok(between(Seq::empty()))
    } else {
        match build_run(ts.drop_last()) {
            Err(k) => Err(k),
            Ok(st) => build_step(st, ts.last()),
        }
    }
}

/// The top-level expressions that the tokens `ts` spell: each is a list
/// in parentheses. A closing parenthesis or a string outside of all
/// parentheses is an error, and so is an input that ends inside a list.
pub open spec fn build_spec(ts: Seq<Token>) -> Result<Seq<Tree>, KindView> {
    match build_run(ts) {
        Err(k) => Err(k),
        Ok(st) => if st.inside {
            Err(KindView::UnexpectedEof)
        } else {
            Ok(st.done)
        },
    }
}

/// The values of a stack of lists.
pub open spec fn forests(stack: Seq<Vec<Cirru>>) -> Seq<Seq<Tree>> {
    Seq::new(stack.len(), |i: int| forest(stack[i]@))
}

/// After an error the builder reads no further.
pub proof fn lemma_build_stuck(ts: Seq<Token>, n: int)
    requires
        0 <= n <= ts.len(),
        build_run(ts.take(n)) is Err,
    ensures
        build_run(ts) == build_run(ts.take(n)),
    decreases ts.len() - n,
{
    if n < ts.len() {
        assert(ts.take(n + 1).drop_last() =~= ts.take(n));
        lemma_build_stuck(ts, n + 1);
    } else {
        assert(ts.take(n) =~= ts);
    }
}

/// Builds the trees that the tokens spell, in one pass with an explicit
/// stack of the lists that are open. The tokens hold no indentation: it
/// was resolved before.
pub fn build_exprs(items: &[CirruLexItem]) -> (res: Result<Vec<Cirru>, CirruError>)
    requires
        indent_free(tokens(items@)),
    ensures
        match build_spec(tokens(items@)) {
            Ok(ts) => res matches Ok(v) && forest(v@) == ts,
            Err(k) => res matches Err(e) && e@ == (ErrorView { kind: k, context: None }),
        },
{
    let ghost ts = tokens(items@);
    let mut acc: Vec<Cirru> = Vec::new();
    let mut inside = false;
    let mut pointer: Vec<Cirru> = Vec::new();
    let mut pointer_stack: Vec<Vec<Cirru>> = Vec::new();
    let mut i: usize = 0;
    proof {
        assert(ts.take(0) =~= Seq::<Token>::empty());
        assert(forest(acc@) =~= Seq::<Tree>::empty());
        assert(forest(pointer@) =~= Seq::<Tree>::empty());
        assert(forests(pointer_stack@) =~= Seq::<Seq<Tree>>::empty());
    }
    while i < items.len()
        invariant
            i <= items.len(),
            ts == tokens(items@),
            indent_free(ts),
            build_run(ts.take(i as int)) == Ok::<BuildState, KindView>(
                BuildState {
                    done: forest(acc@),
                    inside,
                    stack: forests(pointer_stack@),
                    pointer: forest(pointer@),
                },
            ),
        decreases items.len() - i,
    {
        proof {
            assert(ts.take(i + 1).drop_last() =~= ts.take(i as int));
            assert(ts.take(i + 1).last() == items[i as int]@);
            assert(ts[i as int] == items[i as int]@);
        }
        match &items[i] {
            CirruLexItem::Open => {
                if inside {
                    let mut fresh: Vec<Cirru> = Vec::new();
                    core::mem::swap(&mut pointer, &mut fresh);
                    proof {
                        assert(forests(pointer_stack@.push(fresh)) =~= forests(
                            pointer_stack@,
                        ).push(forest(fresh@)));
                        assert(forest(pointer@) =~= Seq::<Tree>::empty());
                    }
                    pointer_stack.push(fresh);
                } else {
                    inside = true;
                }
            },
            CirruLexItem::Close => {
                if !inside {
                    proof {
                        lemma_build_stuck(ts, i + 1);
                    }
                    return Err(CirruError::new(CirruErrorKind::UnexpectedCloseParen));
                }
                let mut prev: Vec<Cirru> = Vec::new();
                core::mem::swap(&mut pointer, &mut prev);
                let ghost stack = pointer_stack@;
                proof {
                    lemma_list_view(prev);
                }
                match pointer_stack.pop() {
                    None => {
                        proof {
                            lemma_forest_push(acc@, Cirru::List(prev));
                            assert(forest(pointer@) =~= Seq::<Tree>::empty());
                            assert(forests(pointer_stack@) =~= Seq::<Seq<Tree>>::empty());
                        }
                        acc.push(Cirru::List(prev));
                        inside = false;
                    },
                    Some(v) => {
                        pointer = v;
                        proof {
                            lemma_forest_push(pointer@, Cirru::List(prev));
                            assert(forests(stack).last() == forest(v@));
                            assert(forests(pointer_stack@) =~= forests(stack).drop_last());
                        }
                        pointer.push(Cirru::List(prev));
                    },
                }
            },
            CirruLexItem::Str(s) => {
                if !inside {
                    proof {
                        lemma_build_stuck(ts, i + 1);
                    }
                    return Err(
                        CirruError::from_message("unexpected token outside of an expression"),
                    );
                }
                let leaf = Cirru::Leaf(s.clone());
                proof {
                    lemma_forest_push(pointer@, leaf);
                }
                pointer.push(leaf);
            },
            CirruLexItem::Indent(_) => {
                assert(ts[i as int] is Indent);
                unreached::<()>();
            },
        }
        i += 1;
    }
    proof {
        assert(ts.take(items.len() as int) =~= ts);
    }
    if inside {
        Err(CirruError::new(CirruErrorKind::UnexpectedEof))
    } else {
        Ok(acc)
    }
}

} // verus!
