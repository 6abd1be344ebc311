//! Writing trees as Lisp-like S-expressions.
use crate::primes::{
    display, forest, is_comment_tree, is_nested_tree, lemma_list_view, Cirru, Tree,
};
use crate::text::{digit_char, extend_chars, joined, starts_with_char, string_of};
use crate::writer::{newline_text, push_spaces, starts_with_newline};
use vstd::prelude::*;
use vstd::string::*;

verus! {

/// The white space that is trimmed from the end of a line: the
/// characters with the Unicode property `White_Space`.
pub open spec fn is_whitespace(c: char) -> bool {
    ||| '\u{0009}' <= c <= '\u{000D}'
    ||| c == ' '
    ||| c == '\u{0085}'
    ||| c == '\u{00A0}'
    ||| c == '\u{1680}'
    ||| '\u{2000}' <= c <= '\u{200A}'
    ||| c == '\u{2028}'
    ||| c == '\u{2029}'
    ||| c == '\u{202F}'
    ||| c == '\u{205F}'
    ||| c == '\u{3000}'
}

/// The text `s` without the white space at its end.
pub open spec fn trim_end(s: Seq<char>) -> Seq<char>
    decreases s.len(),
{
    if s.len() > 0 && is_whitespace(s.last()) {
        trim_end(s.drop_last())
    } else {
        s
    }
}

/// The hexadecimal digit for `d`, which is below sixteen, in lower case.
pub open spec fn hex_digit(d: nat) -> char {
    if d < 10 {
        crate::text::digit(d)
    } else if d == 10 {
        'a'
    } else if d == 11 {
        'b'
    } else if d == 12 {
        'c'
    } else if d == 13 {
        'd'
    } else if d == 14 {
        'e'
    } else {
        'f'
    }
}

/// The hexadecimal numeral of `n`, in lower case, without leading zeros.
pub open spec fn hex(n: nat) -> Seq<char>
    decreases n,
{
    if n < 16 {
        seq![hex_digit(n)]
    } else {
        hex(n / 16).push(hex_digit(n % 16))
    }
}

/// How one character stands in a string literal: tab, carriage return,
/// line feed, both quotes and the backslash get a backslash escape,
/// printable ASCII stands for itself, anything else is written as
/// `\u{..}` with its code point in hexadecimal.
pub open spec fn literal_char(c: char) -> Seq<char> {
    if c == '\t' {
        seq!['\\', 't']
    } else if c == '\r' {
        seq!['\\', 'r']
    } else if c == '\n' {
        seq!['\\', 'n']
    } else if c == '\'' {
        seq!['\\', '\'']
    } else if c == '"' {
        seq!['\\', '"']
    } else if c == '\\' {
        seq!['\\', '\\']
    } else if ' ' <= c <= '~' {
        seq![c]
    } else {
        seq!['\\', 'u', '{'] + hex(c as nat) + seq!['}']
    }
}

/// The characters of `s`, each as it stands in a string literal.
pub open spec fn literal_text(s: Seq<char>) -> Seq<char>
    decreases s.len(),
{
    if s.len() == 0 {
        Seq::empty()
    } else {
        literal_text(s.drop_last()) + literal_char(s.last())
    }
}

pub open spec fn empty_token_message() -> Seq<char> {
    "empty string is invalid"@
}

pub open spec fn bad_token_prefix() -> Seq<char> {
    "bad token content: "@
}

/// A leaf as written in Lisp. A leaf that starts with `|` or `"` is a
/// string: what follows that character is written as a string literal.
/// Any other leaf is written as it is, and must hold no space, line
/// break or double quote. The empty leaf is an error.
pub open spec fn lisp_leaf(token: Seq<char>) -> Result<Seq<char>, Seq<char>> {
    if token.len() == 0 {
        Err(empty_token_message())
    } else if token[0] == '|' || token[0] == '"' {
        Ok(seq!['"'] + literal_text(token.skip(1)) + seq!['"'])
    } else if token.contains(' ') || token.contains('\n') || token.contains('"') {
        Err(bad_token_prefix() + token)
    } else {
        Ok(token)
    }
}

/// The first `n` items of the comment `xs` as written: `;;` on a line of
/// its own, then the items after the first as displayed, each after a space.
pub open spec fn comment_run(xs: Seq<Tree>, n: int, indent: nat) -> Seq<char>
    decreases n,
{
    if n <= 1 || n > xs.len() {
        newline_text(indent) + seq![';', ';']
    } else {
        comment_run(xs, n - 1, indent) + seq![' '] + display(xs[n - 1])
    }
}

/// The node `t` as written in Lisp at the level `indent`, or the message
/// of the first error in it. A list whose first item is `;` or `;;` is a
/// comment on a line of its own. Any other list stands in parentheses,
/// its items separated by spaces; an item that holds a list with items
/// starts a new line, one level deeper.
pub open spec fn lisp_text(t: Tree, indent: nat) -> Result<Seq<char>, Seq<char>>
    decreases t, 0int,
{
    match t {
        Tree::Leaf(token) => lisp_leaf(token),
        Tree::List(xs) => if xs.len() > 0 && is_comment_tree(xs[0]) {
            Ok(trim_end(comment_run(xs, xs.len() as int, indent)) + newline_text(indent))
        } else {
            match lisp_run(xs, xs.len() as int, indent) {
                Err(e) => Err(e),
                Ok(chunk) => Ok(chunk.push(')')),
            }
        },
    }
}

/// The opening parenthesis and the first `n` items of the list `xs` as
/// written in Lisp, or the message of the first error.
pub open spec fn lisp_run(xs: Seq<Tree>, n: int, indent: nat) -> Result<Seq<char>, Seq<char>>
    decreases xs, n,
{
    if n <= 0 || n > xs.len() {
        Ok(seq!['('])
    } else {
        match lisp_run(xs, n - 1, indent) {
            Err(e) => Err(e),
            Ok(chunk) => {
                let x = xs[n - 1];
                let opened = if is_nested_tree(x) {
                    trim_end(chunk) + newline_text(indent + 1)
                } else {
                    chunk
                };
                match lisp_text(x, indent + 1) {
                    Err(e) => Err(e),
                    Ok(next) => {
                        let added = if starts_with_newline(next) {
                            trim_end(opened) + next
                        } else {
                            opened + next
                        };
                        if n - 1 < xs.len() - 1 && !added.contains('\n') {
                            Ok(added.push(' '))
                        } else {
                            Ok(added)
                        }
                    },
                }
            },
        }
    }
}

/// The first `n` of the top-level expressions `xs` as written in Lisp,
/// each on a line of its own after a first line break, or the message of
/// the first error.
pub open spec fn lisp_all(xs: Seq<Tree>, n: int) -> Result<Seq<char>, Seq<char>>
    decreases n,
{
    if n <= 0 || n > xs.len() {
        Ok(seq!['\n'])
    } else {
        match lisp_all(xs, n - 1) {
            Err(e) => Err(e),
            Ok(content) => match lisp_text(xs[n - 1], 0) {
                Err(e) => Err(e),
                Ok(text) => Ok(content + text + seq!['\n']),
            },
        }
    }
}

/// What `format_to_lisp` returns for the top-level expressions `xs`.
pub open spec fn lisp_spec(xs: Seq<Tree>) -> Result<Seq<char>, Seq<char>> {
    lisp_all(xs, xs.len() as int)
}

/// After an error nothing more of the list is written.
proof fn lemma_lisp_run_stuck(xs: Seq<Tree>, n: int, indent: nat)
    requires
        0 <= n <= xs.len(),
        lisp_run(xs, n, indent) is Err,
    ensures
        lisp_run(xs, xs.len() as int, indent) == lisp_run(xs, n, indent),
    decreases xs.len() - n,
{
    if n < xs.len() {
        lemma_lisp_run_stuck(xs, n + 1, indent);
    }
}

/// After an error no further expression is written.
proof fn lemma_lisp_all_stuck(xs: Seq<Tree>, n: int)
    requires
        0 <= n <= xs.len(),
        lisp_all(xs, n) is Err,
    ensures
        lisp_all(xs, xs.len() as int) == lisp_all(xs, n),
    decreases xs.len() - n,
{
    if n < xs.len() {
        lemma_lisp_all_stuck(xs, n + 1);
    }
}

/// Whether `c` is white space.
fn is_space_char(c: char) -> (r: bool)
    ensures
        r == is_whitespace(c),
{
    ('\u{0009}' <= c && c <= '\u{000D}') || c == ' ' || c == '\u{0085}' || c == '\u{00A0}' || c
        == '\u{1680}' || ('\u{2000}' <= c && c <= '\u{200A}') || c == '\u{2028}' || c
        == '\u{2029}' || c == '\u{202F}' || c == '\u{205F}' || c == '\u{3000}'
}

/// Removes the white space at the end of `v`.
fn trim_chars(v: &mut Vec<char>)
    ensures
        final(v)@ == trim_end(old(v)@),
{
    while v.len() > 0 && is_space_char(v[v.len() - 1])
        invariant
            trim_end(v@) == trim_end(old(v)@),
        decreases v.len(),
    {
        let ghost before = v@;
        v.pop();
        assert(v@ =~= before.drop_last());
    }
}

/// Whether `v` holds a line break.
fn has_newline(v: &Vec<char>) -> (r: bool)
    ensures
        r == v@.contains('\n'),
{
    let mut i: usize = 0;
    while i < v.len()
        invariant
            i <= v.len(),
            forall|j: int| 0 <= j < i ==> v@[j] != '\n',
        decreases v.len() - i,
    {
        if v[i] == '\n' {
            return true;
        }
        i += 1;
    }
    false
}

/// Whether the text holds a line break anywhere.
pub fn ends_with_newline(s: &str) -> (r: bool)
    ensures
        r == s@.contains('\n'),
{
    for c in it: s.chars()
        invariant
            it.seq() == s@,
            forall|j: int| 0 <= j < it.index() ==> s@[j] != '\n',
    {
        if c == '\n' {
            return true;
        }
    }
    false
}

/// A line break and the indentation of level `n`: two spaces for each level.
pub fn gen_newline(n: usize) -> (res: String)
    ensures
        res@ == newline_text(n as nat),
{
    let mut chunk = String::new();
    chunk.push('\n');
    push_spaces(&mut chunk, n);
    assert(chunk@ =~= newline_text(n as nat));
    chunk
}

/// The character of one hexadecimal digit.
fn hex_char(d: u8) -> (c: char)
    requires
        d < 16,
    ensures
        c == hex_digit(d as nat),
{
    if d < 10 {
        digit_char(d)
    } else if d == 10 {
        'a'
    } else if d == 11 {
        'b'
    } else if d == 12 {
        'c'
    } else if d == 13 {
        'd'
    } else if d == 14 {
        'e'
    } else {
        'f'
    }
}

/// Appends the hexadecimal numeral of `n` to `v`.
fn push_hex(v: &mut Vec<char>, n: u32)
    ensures
        final(v)@ == old(v)@ + hex(n as nat),
    decreases n,
{
    if n < 16 {
        v.push(hex_char(n as u8));
        assert(v@ =~= old(v)@ + hex(n as nat));
    } else {
        push_hex(v, n / 16);
        v.push(hex_char((n % 16) as u8));
        assert(v@ =~= old(v)@ + hex(n as nat));
    }
}

/// Appends `c` as it stands in a string literal.
fn push_literal_char(v: &mut Vec<char>, c: char)
    ensures
        final(v)@ == old(v)@ + literal_char(c),
{
    if c == '\t' {
        v.push('\\');
        v.push('t');
    } else if c == '\r' {
        v.push('\\');
        v.push('r');
    } else if c == '\n' {
        v.push('\\');
        v.push('n');
    } else if c == '\'' {
        v.push('\\');
        v.push('\'');
    } else if c == '"' {
        v.push('\\');
        v.push('"');
    } else if c == '\\' {
        v.push('\\');
        v.push('\\');
    } else if ' ' <= c && c <= '~' {
        v.push(c);
    } else {
        v.push('\\');
        v.push('u');
        v.push('{');
        push_hex(v, c as u32);
        v.push('}');
    }
    assert(v@ =~= old(v)@ + literal_char(c));
}

/// A leaf as written in Lisp.
fn format_leaf(token: &str) -> (res: Result<String, String>)
    ensures
        match lisp_leaf(token@) {
            Ok(text) => res matches Ok(s) && s@ == text,
            Err(msg) => res matches Err(m) && m@ == msg,
        },
{
    let ghost t = token@;
    let mut first: Option<char> = None;
    let mut bad = false;
    let mut body: Vec<char> = Vec::new();
    body.push('"');
    proof {
        assert(body@ =~= seq!['"'] + literal_text(Seq::<char>::empty()));
    }
    for c in it: token.chars()
        invariant
            it.seq() == t,
            t == token@,
            first == if it.index() > 0 {
                Some(t[0])
            } else {
                None::<char>
            },
            bad == exists|j: int|
                0 <= j < it.index() && (t[j] == ' ' || t[j] == '\n' || t[j] == '"'),
            body@ == seq!['"'] + literal_text(
                if it.index() < 1 {
                    Seq::<char>::empty()
                } else {
                    t.subrange(1, it.index() as int)
                },
            ),
    {
        let ghost i = it.index() as int;
        if first.is_none() {
            first = Some(c);
        } else {
            push_literal_char(&mut body, c);
            proof {
                assert(t.subrange(1, i + 1).drop_last() =~= if i < 1 {
                    Seq::<char>::empty()
                } else {
                    t.subrange(1, i)
                });
                assert(t.subrange(1, i + 1).last() == c);
                assert(body@ =~= seq!['"'] + literal_text(t.subrange(1, i + 1)));
            }
        }
        if c == ' ' || c == '\n' || c == '"' {
            bad = true;
        }
    }
    match first {
        None => Err(String::from_str("empty string is invalid")),
        Some(s0) => {
            proof {
                assert(t.subrange(1, t.len() as int) =~= t.skip(1));
            }
            if s0 == '|' || s0 == '"' {
                body.push('"');
                Ok(string_of(&body))
            } else if bad {
                assert(t.contains(' ') || t.contains('\n') || t.contains('"'));
                Err(joined("bad token content: ", token))
            } else {
                assert(!t.contains(' '));
                assert(!t.contains('\n'));
                assert(!t.contains('"'));
                Ok(token.to_owned())
            }
        },
    }
}

/// The node as written in Lisp. `line` is the line break with the
/// indentation of the level that the node is written at.
fn format_node(node: &Cirru, line: &str, Ghost(indent): Ghost<nat>) -> (res: Result<
    String,
    String,
>)
    requires
        line@ == newline_text(indent),
    ensures
        match lisp_text(node@, indent) {
            Ok(text) => res matches Ok(s) && s@ == text,
            Err(msg) => res matches Err(m) && m@ == msg,
        },
    decreases node,
{
    match node {
        Cirru::Leaf(token) => format_leaf(token.as_str()),
        Cirru::List(xs) => {
            let ghost f = forest(xs@);
            proof {
                lemma_list_view(*xs);
                if xs.len() > 0 {
                    assert(f[0] == xs[0]@);
                }
            }
            if xs.len() > 0 && xs[0].is_comment() {
                let mut chunk: Vec<char> = Vec::new();
                extend_chars(&mut chunk, line);
                chunk.push(';');
                chunk.push(';');
                let mut idx: usize = 1;
                assert(chunk@ =~= comment_run(f, 1, indent));
                while idx < xs.len()
                    invariant
                        1 <= idx <= xs.len(),
                        f == forest(xs@),
                        chunk@ == comment_run(f, idx as int, indent),
                    decreases xs.len() - idx,
                {
                    let ghost before = chunk@;
                    chunk.push(' ');
                    let piece = xs[idx].to_string();
                    extend_chars(&mut chunk, piece.as_str());
                    assert(chunk@ =~= before + seq![' '] + display(f[idx as int]));
                    idx += 1;
                }
                trim_chars(&mut chunk);
                extend_chars(&mut chunk, line);
                Ok(string_of(&chunk))
            } else {
                proof {
                    reveal_strlit("  ");
                }
                let next_line = joined(line, "  ");
                assert(next_line@ =~= newline_text(indent + 1));
                let mut chunk: Vec<char> = Vec::new();
                chunk.push('(');
                assert(chunk@ =~= seq!['(']);
                let mut idx: usize = 0;
                while idx < xs.len()
                    invariant
                        idx <= xs.len(),
                        f == forest(xs@),
                        node is List,
                        *xs == node->List_0,
                        node@ == Tree::List(f),
                        !(f.len() > 0 && is_comment_tree(f[0])),
                        next_line@ == newline_text(indent + 1),
                        lisp_run(f, idx as int, indent) == Ok::<Seq<char>, Seq<char>>(chunk@),
                    decreases xs.len() - idx,
                {
                    let x = &xs[idx];
                    proof {
                        assert(f[idx as int] == x@);
                        assert(decreases_to!(*node => node->List_0));
                        assert(decreases_to!(*xs => xs[idx as int]));
                    }
                    if x.is_nested() {
                        trim_chars(&mut chunk);
                        extend_chars(&mut chunk, next_line.as_str());
                    }
                    let next = match format_node(x, next_line.as_str(), Ghost(indent + 1)) {
                        Ok(s) => s,
                        Err(e) => {
                            proof {
                                assert(lisp_text(x@, indent + 1) is Err);
                                assert(lisp_run(f, idx + 1, indent) is Err);
                                lemma_lisp_run_stuck(f, idx + 1, indent);
                            }
                            return Err(e);
                        },
                    };
                    if starts_with_char(next.as_str(), '\n') {
                        trim_chars(&mut chunk);
                    }
                    extend_chars(&mut chunk, next.as_str());
                    if idx < xs.len() - 1 && !has_newline(&chunk) {
                        chunk.push(' ');
                    }
                    idx += 1;
                }
                chunk.push(')');
                Ok(string_of(&chunk))
            }
        },
    }
}

/// Writes the node in Lisp at the level `indent`. A leaf that starts
/// with `|` or `"` becomes a string literal; any other leaf must hold no
/// space, line break or double quote, and must not be empty.
pub fn format_expr(node: &Cirru, indent: usize) -> (res: Result<String, String>)
    ensures
        match lisp_text(node@, indent as nat) {
            Ok(text) => res matches Ok(s) && s@ == text,
            Err(msg) => res matches Err(m) && m@ == msg,
        },
{
    let line = gen_newline(indent);
    format_node(node, line.as_str(), Ghost(indent as nat))
}

/// Writes the top-level expressions in Lisp, each on a line of its own
/// after a first line break.
pub fn format_to_lisp(xs: &[Cirru]) -> (res: Result<String, String>)
    ensures
        match lisp_spec(forest(xs@)) {
            Ok(text) => res matches Ok(s) && s@ == text,
            Err(msg) => res matches Err(m) && m@ == msg,
        },
{
    let ghost f = forest(xs@);
    let mut content = String::new();
    content.push('\n');
    assert(content@ =~= seq!['\n']);
    let mut i: usize = 0;
    while i < xs.len()
        invariant
            i <= xs.len(),
            f == forest(xs@),
            lisp_all(f, i as int) == Ok::<Seq<char>, Seq<char>>(content@),
        decreases xs.len() - i,
    {
        assert(f[i as int] == xs[i as int]@);
        match format_expr(&xs[i], 0) {
            Err(e) => {
                proof {
                    lemma_lisp_all_stuck(f, i + 1);
                }
                return Err(e);
            },
            Ok(text) => {
                let ghost before = content@;
                content.append(text.as_str());
                content.push('\n');
                assert(content@ =~= before + text@ + seq!['\n']);
            },
        }
        i += 1;
    }
    Ok(content)
}

pub open spec fn expects_list_prefix() -> Seq<char> {
    "expected list to convert to Lisp, got "@
}

impl Cirru {
    /// Writes the items of a list as top-level expressions in Lisp. A
    /// leaf is an error, whose message shows the leaf.
    pub fn to_lisp(&self) -> (res: Result<String, String>)
        ensures
            match self@ {
                Tree::Leaf(_) => res matches Err(m) && m@ == expects_list_prefix() + display(
                    self@,
                ),
                Tree::List(xs) => match lisp_spec(xs) {
                    Ok(text) => res matches Ok(s) && s@ == text,
                    Err(msg) => res matches Err(m) && m@ == msg,
                },
            },
    {
        match self {
            Cirru::Leaf(_) => {
                let shown = self.to_string();
                Err(joined("expected list to convert to Lisp, got ", shown.as_str()))
            },
            Cirru::List(xs) => {
                proof {
                    lemma_list_view(*xs);
                }
                format_to_lisp(xs.as_slice())
            },
        }
    }
}

} // verus!
