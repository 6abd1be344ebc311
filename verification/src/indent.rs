//! The indentation resolver: indentation tokens become parentheses.
use crate::primes::{lemma_tokens_push, tokens, CirruLexItem, Token};
use vstd::prelude::*;

verus! {

/// What the resolver holds between two tokens.
pub struct IndentState {
    /// The tokens emitted so far.
    pub acc: Seq<Token>,
    /// The level of the current line.
    pub level: u8,
}

/// The token `t`, `n` times.
pub open spec fn copies(t: Token, n: nat) -> Seq<Token> {
    Seq::new(n, |i: int| t)
}

/// The state after the token `t`. A deeper line opens as many lists as it
/// is deeper; a shallower line closes as many as it is shallower, then
/// closes the previous expression and opens the next; a line at the same
/// level closes the previous expression and opens the next, unless it is
/// the first. Other tokens pass through.
pub open spec fn indent_step(st: IndentState, t: Token) -> IndentState {
    match t {
        Token::Indent(n) => IndentState {
            acc: if n > st.level {
                st.acc + copies(Token::Open, (n - st.level) as nat)
            } else if n < st.level {
                st.acc + copies(Token::Close, (st.level - n) as nat) + seq![
                    Token::Close,
                    Token::Open,
                ]
            } else if st.acc.len() > 0 {
                st.acc + seq![Token::Close, Token::Open]
            } else {
                st.acc
            },
            level: n,
        },
        _ => IndentState { acc: st.acc.push(t), level: st.level },
    }
}

/// The state after all the tokens `ts`.
pub open spec fn indent_run(ts: Seq<Token>) -> IndentState
    decreases ts.len(),
{
    if ts.len() == 0 {
        IndentState { acc: Seq::empty(), level: 0 }
    } else {
        indent_step(indent_run(ts.drop_last()), ts.last())
    }
}

/// The tokens `ts` with their indentation resolved: nothing if nothing
/// was emitted, else what was emitted inside one more pair of
/// parentheses, after the lists that the last line left open are closed.
pub open spec fn resolve_spec(ts: Seq<Token>) -> Seq<Token> {
    let st = indent_run(ts);
    if st.acc.len() == 0 {
        Seq::empty()
    } else {
        seq![Token::Open] + st.acc + copies(Token::Close, st.level as nat) + seq![Token::Close]
    }
}

/// Whether no token of `ts` is an indentation.
pub open spec fn indent_free(ts: Seq<Token>) -> bool {
    forall|i: int| 0 <= i < ts.len() ==> !(#[trigger] ts[i] is Indent)
}

proof fn lemma_run_indent_free(ts: Seq<Token>)
    ensures
        indent_free(indent_run(ts).acc),
    decreases ts.len(),
{
    if ts.len() > 0 {
        lemma_run_indent_free(ts.drop_last());
    }
}

/// No indentation token is left after the indentation is resolved.
pub proof fn lemma_resolved_indent_free(ts: Seq<Token>)
    ensures
        indent_free(resolve_spec(ts)),
{
    lemma_run_indent_free(ts);
}

/// Appends `n` parentheses to `acc`: opening ones if `open`, else closing ones.
fn push_parens(acc: &mut Vec<CirruLexItem>, open: bool, n: u8)
    ensures
        tokens(final(acc)@) == tokens(old(acc)@) + copies(
            if open {
                Token::Open
            } else {
                Token::Close
            },
            n as nat,
        ),
{
    let ghost t = if open {
        Token::Open
    } else {
        Token::Close
    };
    let mut i: u8 = 0;
    assert(tokens(acc@) + copies(t, 0) =~= tokens(acc@));
    while i < n
        invariant
            i <= n,
            t == if open {
                Token::Open
            } else {
                Token::Close
            },
            tokens(acc@) == tokens(old(acc)@) + copies(t, i as nat),
        decreases n - i,
    {
        let item = if open {
            CirruLexItem::Open
        } else {
            CirruLexItem::Close
        };
        proof {
            lemma_tokens_push(acc@, item);
            assert((tokens(old(acc)@) + copies(t, i as nat)).push(t) =~= tokens(old(acc)@)
                + copies(t, (i + 1) as nat));
        }
        acc.push(item);
        i += 1;
    }
}

/// Appends `Close` and `Open`: the previous expression ends, the next begins.
fn push_break(acc: &mut Vec<CirruLexItem>)
    ensures
        tokens(final(acc)@) == tokens(old(acc)@) + seq![Token::Close, Token::Open],
{
    proof {
        lemma_tokens_push(acc@, CirruLexItem::Close);
        lemma_tokens_push(acc@.push(CirruLexItem::Close), CirruLexItem::Open);
        assert(tokens(acc@).push(Token::Close).push(Token::Open) =~= tokens(acc@) + seq![
            Token::Close,
            Token::Open,
        ]);
    }
    acc.push(CirruLexItem::Close);
    acc.push(CirruLexItem::Open);
}

/// Rewrites the indentation tokens into parentheses. The result holds no
/// indentation token: each line has become a list, a deeper line a list
/// inside the line above it, and the whole is balanced if the
/// parentheses of the input were.
pub fn resolve_indentations(items: &[CirruLexItem]) -> (res: Vec<CirruLexItem>)
    ensures
        tokens(res@) == resolve_spec(tokens(items@)),
        indent_free(tokens(res@)),
{
    let ghost ts = tokens(items@);
    let mut acc: Vec<CirruLexItem> = Vec::new();
    let mut level: u8 = 0;
    let mut i: usize = 0;
    proof {
        assert(ts.take(0) =~= Seq::<Token>::empty());
        assert(tokens(acc@) =~= Seq::<Token>::empty());
    }
    while i < items.len()
        invariant
            i <= items.len(),
            ts == tokens(items@),
            indent_run(ts.take(i as int)) == (IndentState { acc: tokens(acc@), level }),
        decreases items.len() - i,
    {
        proof {
            assert(ts.take(i + 1).drop_last() =~= ts.take(i as int));
            assert(ts.take(i + 1).last() == items[i as int]@);
        }
        match &items[i] {
            CirruLexItem::Str(s) => {
                let item = CirruLexItem::Str(s.clone());
                proof {
                    lemma_tokens_push(acc@, item);
                }
                acc.push(item);
            },
            CirruLexItem::Open => {
                proof {
                    lemma_tokens_push(acc@, CirruLexItem::Open);
                }
                acc.push(CirruLexItem::Open);
            },
            CirruLexItem::Close => {
                proof {
                    lemma_tokens_push(acc@, CirruLexItem::Close);
                }
                acc.push(CirruLexItem::Close);
            },
            CirruLexItem::Indent(n) => {
                let n = *n;
                if n > level {
                    push_parens(&mut acc, true, n - level);
                } else if n < level {
                    push_parens(&mut acc, false, level - n);
                    push_break(&mut acc);
                } else if acc.len() > 0 {
                    push_break(&mut acc);
                }
                level = n;
            },
        }
        i += 1;
    }
    proof {
        assert(ts.take(items.len() as int) =~= ts);
        lemma_resolved_indent_free(ts);
    }
    if acc.len() == 0 {
        assert(tokens(acc@) =~= Seq::<Token>::empty());
        acc
    } else {
        let mut res: Vec<CirruLexItem> = Vec::new();
        res.push(CirruLexItem::Open);
        let ghost inner = tokens(acc@);
        proof {
            assert(tokens(res@) =~= seq![Token::Open]);
            assert(tokens(res@ + acc@) =~= tokens(res@) + tokens(acc@));
        }
        res.append(&mut acc);
        push_parens(&mut res, false, level);
        proof {
            lemma_tokens_push(res@, CirruLexItem::Close);
            assert((seq![Token::Open] + inner + copies(Token::Close, level as nat)).push(
                Token::Close,
            ) =~= seq![Token::Open] + inner + copies(Token::Close, level as nat) + seq![
                Token::Close,
            ]);
        }
        res.push(CirruLexItem::Close);
        res
    }
}

} // verus!
