//! The writer: from trees back to Cirru code, laid out by indentation.
use crate::primes::{forest, lemma_list_view, push_quoted, quoted, Cirru, Tree};
use crate::text::{joined, repeat, starts_with_char};
use vstd::prelude::*;
use vstd::std_specs::convert::FromSpecImpl;
use vstd::string::*;

verus! {

/// The shape of a node, as the layout sees it.
#[derive(Clone, Copy, Debug, PartialEq, Eq, Structural)]
pub enum WriterNode {
    /// Before the first item.
    Nil,
    /// A leaf or an empty list.
    Leaf,
    /// A list of leaves only.
    SimpleExpr,
    /// A list of lists only.
    BoxedExpr,
    /// Any other list.
    Expr,
}

/// Options of the writer: with `use_inline`, simple expressions that
/// follow one another share a line.
#[derive(Clone, Copy, Debug, PartialEq, Eq, Structural)]
pub struct CirruWriterOptions {
    pub use_inline: bool,
}

impl From<bool> for CirruWriterOptions {
    fn from(use_inline: bool) -> (res: Self)
        ensures
            res.use_inline == use_inline,
    {
        CirruWriterOptions { use_inline }
    }
}

impl FromSpecImpl<bool> for CirruWriterOptions {
    open spec fn obeys_from_spec() -> bool {
        true
    }

    open spec fn from_spec(v: bool) -> Self {
        CirruWriterOptions { use_inline: v }
    }
}

pub open spec fn is_digit_char(c: char) -> bool {
    '0' <= c <= '9'
}

pub open spec fn is_letter_char(c: char) -> bool {
    'A' <= c <= 'Z' || 'a' <= c <= 'z'
}

/// A character that the writer leaves bare in a leaf: a letter, a digit,
/// or one of `$-:<>[]{}*=+.,\/!?~_@#&%^|;'`.
pub open spec fn is_allowed_char(c: char) -> bool {
    ||| is_letter_char(c)
    ||| is_digit_char(c)
    ||| c == '$'
    ||| c == '-'
    ||| c == ':'
    ||| c == '<'
    ||| c == '>'
    ||| c == '['
    ||| c == ']'
    ||| c == '{'
    ||| c == '}'
    ||| c == '*'
    ||| c == '='
    ||| c == '+'
    ||| c == '.'
    ||| c == ','
    ||| c == '\\'
    ||| c == '/'
    ||| c == '!'
    ||| c == '?'
    ||| c == '~'
    ||| c == '_'
    ||| c == '@'
    ||| c == '#'
    ||| c == '&'
    ||| c == '%'
    ||| c == '^'
    ||| c == '|'
    ||| c == ';'
    ||| c == '\''
}

/// A text that the writer leaves bare; the empty text is one.
pub open spec fn is_allowed_text(s: Seq<char>) -> bool {
    forall|i: int| 0 <= i < s.len() ==> is_allowed_char(#[trigger] s[i])
}

/// A leaf as written: bare if all its characters are allowed, else quoted.
pub open spec fn leaf_text(s: Seq<char>) -> Seq<char> {
    if is_allowed_text(s) {
        s
    } else {
        quoted(s)
    }
}

/// A node as written on one line: a leaf by `leaf_text`, a list in parentheses.
pub open spec fn node_text(t: Tree) -> Seq<char>
    decreases t, 1nat,
{
    match t {
        Tree::Leaf(s) => leaf_text(s),
        Tree::List(ys) => seq!['('] + items_text(ys) + seq![')'],
    }
}

/// The items `xs` as written on one line, separated by single spaces.
pub open spec fn items_text(xs: Seq<Tree>) -> Seq<char>
    decreases xs, 0nat,
{
    if xs.len() == 0 {
        Seq::empty()
    } else if xs.len() == 1 {
        node_text(xs[0])
    } else {
        items_text(xs.drop_last()) + seq![' '] + node_text(xs.last())
    }
}

/// The list of `xs` as written on one line, in parentheses.
pub open spec fn inline_text(xs: Seq<Tree>) -> Seq<char> {
    seq!['('] + items_text(xs) + seq![')']
}

/// A line break and the indentation of level `n`: two spaces for each level.
pub open spec fn newline_text(n: nat) -> Seq<char> {
    seq!['\n'] + repeat(' ', 2 * n)
}

/// Whether every item of `xs` is a leaf.
pub open spec fn all_leaves(xs: Seq<Tree>) -> bool {
    forall|i: int| 0 <= i < xs.len() ==> #[trigger] xs[i] is Leaf
}

/// Whether every item of `xs` is a list.
pub open spec fn all_lists(xs: Seq<Tree>) -> bool {
    forall|i: int| 0 <= i < xs.len() ==> #[trigger] xs[i] is List
}

/// The shape of the node `t`: a leaf and an empty list are leaves, a list
/// of leaves is simple, a list of lists is boxed.
pub open spec fn kind_of(t: Tree) -> WriterNode {
    match t {
        Tree::Leaf(_) => WriterNode::Leaf,
        Tree::List(xs) => if xs.len() == 0 {
            WriterNode::Leaf
        } else if all_leaves(xs) {
            WriterNode::SimpleExpr
        } else if all_lists(xs) {
            WriterNode::BoxedExpr
        } else {
            WriterNode::Expr
        },
    }
}

/// What the layout holds between two items of a list.
pub struct Layout {
    /// The text written so far.
    pub text: Seq<char>,
    /// The shape of the previous item, as the layout counts it.
    pub prev: WriterNode,
    /// The level of indentation.
    pub level: nat,
}

pub open spec fn starts_with_newline(s: Seq<char>) -> bool {
    s.len() > 0 && s[0] == '\n'
}

/// Whether the item at `idx` is written after `$`: the last item, not the
/// first, after a leaf, and not itself inside what follows a `$`.
pub open spec fn is_at_tail(len: nat, idx: int, prev: WriterNode, in_tail: bool) -> bool {
    idx != 0 && !in_tail && prev == WriterNode::Leaf && idx == len - 1
}

/// Whether the item of shape `kind` is joined to the line by one space.
pub open spec fn is_spaced(at_tail: bool, prev: WriterNode, kind: WriterNode) -> bool {
    ||| at_tail
    ||| (prev == WriterNode::Leaf && kind == WriterNode::Leaf)
    ||| (prev == WriterNode::Leaf && kind == WriterNode::SimpleExpr)
    ||| (prev == WriterNode::SimpleExpr && kind == WriterNode::Leaf)
}

/// Whether a leaf follows a boxed or mixed expression: it is then written
/// on a line of its own, one level deeper, after `, `.
pub open spec fn is_bended(prev: WriterNode, kind: WriterNode) -> bool {
    kind == WriterNode::Leaf && (prev == WriterNode::BoxedExpr || prev == WriterNode::Expr)
}

/// The shape that the next item sees before it.
pub open spec fn next_prev(
    prev: WriterNode,
    kind: WriterNode,
    idx: int,
    insist_head: bool,
    use_inline: bool,
) -> WriterNode {
    if kind == WriterNode::SimpleExpr {
        if idx == 0 && insist_head {
            WriterNode::SimpleExpr
        } else if use_inline {
            if prev == WriterNode::Leaf || prev == WriterNode::SimpleExpr {
                WriterNode::SimpleExpr
            } else {
                WriterNode::Expr
            }
        } else if prev == WriterNode::Leaf {
            WriterNode::SimpleExpr
        } else {
            WriterNode::Expr
        }
    } else {
        kind
    }
}

/// The text of the item at `idx` of `xs` by itself, before it is joined
/// to what was written.
pub open spec fn child_text(
    xs: Seq<Tree>,
    idx: int,
    prev: WriterNode,
    level: nat,
    insist_head: bool,
    use_inline: bool,
    in_tail: bool,
) -> Seq<char>
    decreases xs, 0nat, 0nat,
{
    if 0 <= idx < xs.len() {
        match xs[idx] {
            Tree::Leaf(s) => leaf_text(s),
            Tree::List(ys) => {
                let kind = kind_of(xs[idx]);
                let head = prev == WriterNode::BoxedExpr || prev == WriterNode::Expr;
                if is_at_tail(xs.len(), idx, prev, in_tail) {
                    if ys.len() == 0 {
                        seq!['$']
                    } else {
                        seq!['$', ' '] + tree_run(
                            ys,
                            ys.len() as int,
                            false,
                            use_inline,
                            level,
                            true,
                        ).text
                    }
                } else if idx == 0 && insist_head {
                    inline_text(ys)
                } else if kind == WriterNode::Leaf {
                    if idx == 0 {
                        newline_text(level) + seq!['(', ')']
                    } else {
                        seq!['(', ')']
                    }
                } else if kind == WriterNode::SimpleExpr {
                    if prev == WriterNode::Leaf {
                        inline_text(ys)
                    } else if use_inline && prev == WriterNode::SimpleExpr {
                        seq![' '] + inline_text(ys)
                    } else {
                        newline_text(level + 1) + tree_run(
                            ys,
                            ys.len() as int,
                            head,
                            use_inline,
                            level + 1,
                            false,
                        ).text
                    }
                } else if kind == WriterNode::Expr {
                    let content = tree_run(
                        ys,
                        ys.len() as int,
                        head,
                        use_inline,
                        level + 1,
                        false,
                    ).text;
                    if starts_with_newline(content) {
                        content
                    } else {
                        newline_text(level + 1) + content
                    }
                } else {
                    let content = tree_run(
                        ys,
                        ys.len() as int,
                        head,
                        use_inline,
                        level + 1,
                        false,
                    ).text;
                    if prev == WriterNode::Nil || prev == WriterNode::Leaf || prev
                        == WriterNode::SimpleExpr {
                        content
                    } else {
                        newline_text(level + 1) + content
                    }
                }
            },
        }
    } else {
        Seq::empty()
    }
}

/// The text that the item at `idx` of `xs` adds to what was written:
/// the item by itself, after a space where it is joined to the line, and
/// after a line break and `, ` where a leaf follows a boxed or mixed
/// expression.
pub open spec fn chunk_text(
    xs: Seq<Tree>,
    idx: int,
    prev: WriterNode,
    level: nat,
    insist_head: bool,
    use_inline: bool,
    in_tail: bool,
) -> Seq<char>
    decreases xs, 0nat, 1nat,
{
    if 0 <= idx < xs.len() {
        let kind = kind_of(xs[idx]);
        let child = child_text(xs, idx, prev, level, insist_head, use_inline, in_tail);
        if is_spaced(is_at_tail(xs.len(), idx, prev, in_tail), prev, kind) {
            seq![' '] + child
        } else if is_bended(prev, kind) {
            newline_text(level + 1) + seq![',', ' '] + child
        } else {
            child
        }
    } else {
        Seq::empty()
    }
}

/// The layout after the first `n` items of the list `xs`, which is
/// written from the level `base_level` on. `insist_head` asks for a first
/// item in parentheses; `in_tail` says that the list follows a `$`.
pub open spec fn tree_run(
    xs: Seq<Tree>,
    n: int,
    insist_head: bool,
    use_inline: bool,
    base_level: nat,
    in_tail: bool,
) -> Layout
    decreases xs, n, 2nat,
{
    if n <= 0 || n > xs.len() {
        Layout { text: Seq::empty(), prev: WriterNode::Nil, level: base_level }
    } else {
        let st = tree_run(xs, n - 1, insist_head, use_inline, base_level, in_tail);
        let idx = n - 1;
        let kind = kind_of(xs[idx]);
        Layout {
            text: st.text + chunk_text(
                xs,
                idx,
                st.prev,
                st.level,
                insist_head,
                use_inline,
                in_tail,
            ),
            prev: next_prev(st.prev, kind, idx, insist_head, use_inline),
            level: if is_bended(st.prev, kind) {
                st.level + 1
            } else {
                st.level
            },
        }
    }
}

/// The items `xs` of one list as laid out from the level `base_level` on.
pub open spec fn tree_text(
    xs: Seq<Tree>,
    insist_head: bool,
    use_inline: bool,
    base_level: nat,
    in_tail: bool,
) -> Seq<char> {
    tree_run(xs, xs.len() as int, insist_head, use_inline, base_level, in_tail).text
}

/// The top-level expressions `xs` as written: each is a list, laid out
/// from level 0 between two line breaks.
pub open spec fn statements_text(xs: Seq<Tree>, use_inline: bool) -> Seq<char>
    decreases xs.len(),
{
    if xs.len() == 0 {
        Seq::empty()
    } else {
        statements_text(xs.drop_last(), use_inline) + seq!['\n'] + (match xs.last() {
            Tree::Leaf(_) => Seq::empty(),
            Tree::List(cs) => tree_text(cs, true, use_inline, 0, false),
        }) + seq!['\n']
    }
}

/// The message of the error for a leaf at the top level.
pub open spec fn top_level_leaf_message() -> Seq<char> {
    "expected an expression at top level"@
}

/// What `format` returns for the top-level nodes `xs`: their text, or the
/// error if one of them is a leaf.
pub open spec fn format_spec(xs: Seq<Tree>, use_inline: bool) -> Result<Seq<char>, Seq<char>> {
    if all_lists(xs) {
        Ok(statements_text(xs, use_inline))
    } else {
        Err(top_level_leaf_message())
    }
}

/// The items `xs` of one expression as written on one line. The last
/// item, if it is a list after a leaf, is written after `$` without its
/// parentheses, unless `in_tail` says that `xs` itself follows a `$`;
/// every other list is written in parentheses.
pub open spec fn oneliner_text(xs: Seq<Tree>, n: int, in_tail: bool) -> Seq<char>
    decreases xs, n,
{
    if n <= 0 || n > xs.len() {
        Seq::empty()
    } else {
        let idx = n - 1;
        let before = oneliner_text(xs, idx, in_tail);
        let sep = if idx > 0 {
            seq![' ']
        } else {
            Seq::empty()
        };
        let prev = if idx > 0 {
            kind_of(xs[idx - 1])
        } else {
            WriterNode::Nil
        };
        before + sep + match xs[idx] {
            Tree::Leaf(s) => leaf_text(s),
            Tree::List(ys) => if is_at_tail(xs.len(), idx, prev, in_tail) {
                if ys.len() == 0 {
                    seq!['$']
                } else {
                    seq!['$', ' '] + oneliner_text(ys, ys.len() as int, true)
                }
            } else {
                inline_text(ys)
            },
        }
    }
}

pub fn is_a_digit(c: char) -> (r: bool)
    ensures
        r == is_digit_char(c),
{
    '0' <= c && c <= '9'
}

pub fn is_a_letter(c: char) -> (r: bool)
    ensures
        r == is_letter_char(c),
{
    if 'A' <= c && c <= 'Z' {
        return true;
    }
    if 'a' <= c && c <= 'z' {
        return true;
    }
    false
}

pub fn is_simple_char(x: char) -> (r: bool)
    ensures
        r == (is_letter_char(x) || is_digit_char(x)),
{
    is_a_letter(x) || is_a_digit(x)
}

/// Whether the writer leaves `x` bare in a leaf.
pub fn is_char_allowed(x: char) -> (r: bool)
    ensures
        r == is_allowed_char(x),
{
    if is_simple_char(x) {
        return true;
    }
    x == '$' || x == '-' || x == ':' || x == '<' || x == '>' || x == '[' || x == ']' || x == '{'
        || x == '}' || x == '*' || x == '=' || x == '+' || x == '.' || x == ',' || x == '\\' || x
        == '/' || x == '!' || x == '?' || x == '~' || x == '_' || x == '@' || x == '#' || x == '&'
        || x == '%' || x == '^' || x == '|' || x == ';' || x == '\''
}

/// Whether every item of `ys` is a leaf.
pub fn is_simple_expr(ys: &[Cirru]) -> (r: bool)
    ensures
        r == all_leaves(forest(ys@)),
{
    let mut i: usize = 0;
    while i < ys.len()
        invariant
            i <= ys.len(),
            forall|j: int| 0 <= j < i ==> #[trigger] forest(ys@)[j] is Leaf,
        decreases ys.len() - i,
    {
        match &ys[i] {
            Cirru::List(_) => {
                assert(forest(ys@)[i as int] is List);
                return false;
            },
            Cirru::Leaf(_) => {
                assert(forest(ys@)[i as int] is Leaf);
            },
        }
        i += 1;
    }
    true
}

/// Whether every item of `ys` is a list.
pub fn is_boxed(ys: &[Cirru]) -> (r: bool)
    ensures
        r == all_lists(forest(ys@)),
{
    let mut i: usize = 0;
    while i < ys.len()
        invariant
            i <= ys.len(),
            forall|j: int| 0 <= j < i ==> #[trigger] forest(ys@)[j] is List,
        decreases ys.len() - i,
    {
        match &ys[i] {
            Cirru::Leaf(_) => {
                assert(forest(ys@)[i as int] is Leaf);
                return false;
            },
            Cirru::List(_) => {
                assert(forest(ys@)[i as int] is List);
            },
        }
        i += 1;
    }
    true
}

/// Whether the writer leaves the text `s` bare.
fn is_text_allowed(s: &str) -> (r: bool)
    ensures
        r == is_allowed_text(s@),
{
    for c in it: s.chars()
        invariant
            it.seq() == s@,
            forall|i: int| 0 <= i < it.index() ==> is_allowed_char(#[trigger] s@[i]),
    {
        if !is_char_allowed(c) {
            return false;
        }
    }
    true
}

/// Appends the leaf `s` as written.
fn push_leaf(out: &mut String, s: &str)
    ensures
        final(out)@ == old(out)@ + leaf_text(s@),
{
    if is_text_allowed(s) {
        out.append(s);
    } else {
        push_quoted(out, s);
    }
}

/// The leaf `s` as written: bare if all its characters are allowed, else
/// quoted, with newline, tab, quotes and backslash escaped.
pub fn generate_leaf(s: &str) -> (res: String)
    ensures
        res@ == leaf_text(s@),
{
    let mut ret = String::new();
    push_leaf(&mut ret, s);
    assert(Seq::<char>::empty() + leaf_text(s@) =~= leaf_text(s@));
    ret
}

pub fn generate_empty_expr() -> (res: String)
    ensures
        res@ == seq!['(', ')'],
{
    let mut ret = String::new();
    ret.push('(');
    ret.push(')');
    assert(ret@ =~= seq!['(', ')']);
    ret
}

/// Appends the node `t` as written on one line.
fn push_node(out: &mut String, t: &Cirru)
    ensures
        final(out)@ == old(out)@ + node_text(t@),
    decreases t,
{
    match t {
        Cirru::Leaf(s) => {
            push_leaf(out, s.as_str());
        },
        Cirru::List(xs) => {
            out.push('(');
            let ghost start = out@;
            let mut idx: usize = 0;
            proof {
                lemma_list_view(*xs);
                assert(start + items_text(forest(xs@).take(0)) =~= start);
            }
            while idx < xs.len()
                invariant
                    t is List,
                    *xs == t->List_0,
                    idx <= xs.len(),
                    out@ == start + items_text(forest(xs@).take(idx as int)),
                decreases xs.len() - idx,
            {
                if idx > 0 {
                    out.push(' ');
                }
                assert(decreases_to!(*t => t->List_0));
                assert(decreases_to!(*xs => xs[idx as int]));
                push_node(out, &xs[idx]);
                proof {
                    let f = forest(xs@);
                    let i = idx as int;
                    assert(f.take(i + 1).drop_last() =~= f.take(i));
                    assert(f.take(i + 1).last() == xs[i]@);
                    if i > 0 {
                        assert(start + items_text(f.take(i + 1)) =~= start + items_text(f.take(i))
                            + seq![' '] + node_text(xs[i]@));
                        assert(start + items_text(f.take(i)) + seq![' '] =~= (start + items_text(
                            f.take(i),
                        )).push(' '));
                    } else {
                        assert(f.take(1)[0] == xs[0]@);
                        assert(start + items_text(f.take(0)) =~= start);
                    }
                }
                idx += 1;
            }
            out.push(')');
            proof {
                let f = forest(xs@);
                assert(f.take(xs.len() as int) =~= f);
                assert(out@ =~= old(out)@ + node_text(t@));
            }
        },
    }
}

/// The list of `xs` as written on one line, in parentheses.
pub fn generate_inline_expr(xs: &Vec<Cirru>) -> (res: String)
    ensures
        res@ == inline_text(forest(xs@)),
{
    let mut result = String::new();
    result.push('(');
    let ghost start = result@;
    let mut idx: usize = 0;
    proof {
        assert(start + items_text(forest(xs@).take(0)) =~= start);
    }
    while idx < xs.len()
        invariant
            idx <= xs.len(),
            start == seq!['('],
            result@ == start + items_text(forest(xs@).take(idx as int)),
        decreases xs.len() - idx,
    {
        if idx > 0 {
            result.push(' ');
        }
        push_node(&mut result, &xs[idx]);
        proof {
            let f = forest(xs@);
            let i = idx as int;
            assert(f.take(i + 1).drop_last() =~= f.take(i));
            assert(f.take(i + 1).last() == xs[i]@);
            if i > 0 {
                assert(start + items_text(f.take(i + 1)) =~= start + items_text(f.take(i)) + seq![
                    ' ',
                ] + node_text(xs[i]@));
                assert(start + items_text(f.take(i)) + seq![' '] =~= (start + items_text(
                    f.take(i),
                )).push(' '));
            } else {
                assert(f.take(1)[0] == xs[0]@);
                assert(start + items_text(f.take(0)) =~= start);
            }
        }
        idx += 1;
    }
    result.push(')');
    proof {
        let f = forest(xs@);
        assert(f.take(xs.len() as int) =~= f);
        assert(result@ =~= inline_text(f));
    }
    result
}

/// Appends the indentation of level `n`: two spaces for each level.
pub fn push_spaces(buf: &mut String, n: usize)
    ensures
        final(buf)@ == old(buf)@ + repeat(' ', 2 * (n as nat)),
{
    let mut i: usize = 0;
    assert(buf@ + repeat(' ', 0) =~= buf@);
    while i < n
        invariant
            i <= n,
            buf@ == old(buf)@ + repeat(' ', 2 * (i as nat)),
        decreases n - i,
    {
        buf.push(' ');
        buf.push(' ');
        assert((old(buf)@ + repeat(' ', 2 * (i as nat))).push(' ').push(' ') =~= old(buf)@
            + repeat(' ', 2 * ((i + 1) as nat)));
        i += 1;
    }
}

/// A line break and the indentation of level `n`.
pub fn render_newline(n: usize) -> (res: String)
    ensures
        res@ == newline_text(n as nat),
{
    let mut ret = String::new();
    ret.push('\n');
    push_spaces(&mut ret, n);
    assert(ret@ =~= newline_text(n as nat));
    ret
}

/// The shape of the node.
pub fn get_node_kind(cursor: &Cirru) -> (kind: WriterNode)
    ensures
        kind == kind_of(cursor@),
{
    match cursor {
        Cirru::Leaf(_) => WriterNode::Leaf,
        Cirru::List(xs) => {
            proof {
                lemma_list_view(*xs);
            }
            if xs.len() == 0 {
                WriterNode::Leaf
            } else if is_simple_expr(xs.as_slice()) {
                WriterNode::SimpleExpr
            } else if is_boxed(xs.as_slice()) {
                WriterNode::BoxedExpr
            } else {
                WriterNode::Expr
            }
        },
    }
}

/// Lays out the items `xs` of one list. `base_line` is the line break
/// with the indentation of the level that the list is written at.
#[verifier::rlimit(60)]
fn generate_tree(
    xs: &Vec<Cirru>,
    insist_head: bool,
    options: CirruWriterOptions,
    base_line: &str,
    Ghost(base_level): Ghost<nat>,
    in_tail: bool,
) -> (res: String)
    requires
        base_line@ == newline_text(base_level),
    ensures
        res@ == tree_text(forest(xs@), insist_head, options.use_inline, base_level, in_tail),
    decreases xs,
{
    let ghost f = forest(xs@);
    let ghost inline = options.use_inline;
    let mut prev_kind = WriterNode::Nil;
    let ghost mut level: nat = base_level;
    let mut line: String = base_line.to_owned();
    let mut result = String::new();
    let mut idx: usize = 0;
    while idx < xs.len()
        invariant
            idx <= xs.len(),
            f == forest(xs@),
            inline == options.use_inline,
            line@ == newline_text(level),
            tree_run(f, idx as int, insist_head, inline, base_level, in_tail) == (Layout {
                text: result@,
                prev: prev_kind,
                level,
            }),
        decreases xs.len() - idx,
    {
        let cursor = &xs[idx];
        let kind = get_node_kind(cursor);
        let next_line = joined(line.as_str(), "  ");
        let child_insist_head = prev_kind == WriterNode::BoxedExpr || prev_kind
            == WriterNode::Expr;
        let at_tail = idx != 0 && !in_tail && prev_kind == WriterNode::Leaf && idx == xs.len()
            - 1;
        let ghost i = idx as int;
        let ghost expected = child_text(f, i, prev_kind, level, insist_head, inline, in_tail);
        let ghost chunk = chunk_text(f, i, prev_kind, level, insist_head, inline, in_tail);
        proof {
            reveal_strlit("  ");
            assert(next_line@ =~= newline_text(level + 1));
            assert(f[i] == cursor@);
            assert(decreases_to!(*xs => xs[i]));
        }
        let child: String = match cursor {
            Cirru::Leaf(s) => generate_leaf(s.as_str()),
            Cirru::List(ys) => {
                proof {
                    lemma_list_view(*ys);
                    assert(decreases_to!(xs[i] => *ys));
                }
                if at_tail {
                    let mut ret = String::new();
                    ret.push('$');
                    if ys.len() > 0 {
                        ret.push(' ');
                        let inner = generate_tree(
                            ys,
                            false,
                            options,
                            line.as_str(),
                            Ghost(level),
                            true,
                        );
                        ret.append(inner.as_str());
                        assert(ret@ =~= seq!['$', ' '] + inner@);
                    } else {
                        assert(ret@ =~= seq!['$']);
                    }
                    ret
                } else if idx == 0 && insist_head {
                    generate_inline_expr(ys)
                } else if kind == WriterNode::Leaf {
                    if idx == 0 {
                        joined(line.as_str(), generate_empty_expr().as_str())
                    } else {
                        generate_empty_expr()
                    }
                } else if kind == WriterNode::SimpleExpr {
                    if prev_kind == WriterNode::Leaf {
                        generate_inline_expr(ys)
                    } else if options.use_inline && prev_kind == WriterNode::SimpleExpr {
                        let mut ret = String::new();
                        ret.push(' ');
                        ret.append(generate_inline_expr(ys).as_str());
                        assert(ret@ =~= seq![' '] + inline_text(forest(ys@)));
                        ret
                    } else {
                        let inner = generate_tree(
                            ys,
                            child_insist_head,
                            options,
                            next_line.as_str(),
                            Ghost(level + 1),
                            false,
                        );
                        joined(next_line.as_str(), inner.as_str())
                    }
                } else if kind == WriterNode::Expr {
                    let content = generate_tree(
                        ys,
                        child_insist_head,
                        options,
                        next_line.as_str(),
                        Ghost(level + 1),
                        false,
                    );
                    if starts_with_char(content.as_str(), '\n') {
                        content
                    } else {
                        joined(next_line.as_str(), content.as_str())
                    }
                } else {
                    let content = generate_tree(
                        ys,
                        child_insist_head,
                        options,
                        next_line.as_str(),
                        Ghost(level + 1),
                        false,
                    );
                    if prev_kind == WriterNode::Nil || prev_kind == WriterNode::Leaf || prev_kind
                        == WriterNode::SimpleExpr {
                        content
                    } else {
                        joined(next_line.as_str(), content.as_str())
                    }
                }
            },
        };
        assert(child@ == expected);
        let bended = kind == WriterNode::Leaf && (prev_kind == WriterNode::BoxedExpr || prev_kind
            == WriterNode::Expr);
        let ghost before = result@;
        if at_tail || (prev_kind == WriterNode::Leaf && kind == WriterNode::Leaf) || (prev_kind
            == WriterNode::Leaf && kind == WriterNode::SimpleExpr) || (prev_kind
            == WriterNode::SimpleExpr && kind == WriterNode::Leaf) {
            result.push(' ');
            result.append(child.as_str());
            assert(result@ =~= before + (seq![' '] + child@));
        } else if bended {
            result.append(next_line.as_str());
            result.push(',');
            result.push(' ');
            result.append(child.as_str());
            assert(result@ =~= before + (newline_text(level + 1) + seq![',', ' '] + child@));
        } else {
            result.append(child.as_str());
        }
        assert(result@ == before + chunk);
        if kind == WriterNode::SimpleExpr {
            if idx == 0 && insist_head {
                prev_kind = WriterNode::SimpleExpr;
            } else if options.use_inline {
                if prev_kind == WriterNode::Leaf || prev_kind == WriterNode::SimpleExpr {
                    prev_kind = WriterNode::SimpleExpr;
                } else {
                    prev_kind = WriterNode::Expr;
                }
            } else if prev_kind == WriterNode::Leaf {
                prev_kind = WriterNode::SimpleExpr;
            } else {
                prev_kind = WriterNode::Expr;
            }
        } else {
            prev_kind = kind;
        }
        if bended {
            line = next_line;
            proof {
                level = level + 1;
            }
        }
        idx += 1;
    }
    result
}

/// Appends the items `xs` of one expression as written on one line.
fn push_oneliner(out: &mut String, xs: &Vec<Cirru>, in_tail: bool)
    ensures
        final(out)@ == old(out)@ + oneliner_text(forest(xs@), xs.len() as int, in_tail),
    decreases xs,
{
    let ghost f = forest(xs@);
    let mut idx: usize = 0;
    let mut prev_kind = WriterNode::Nil;
    assert(out@ + oneliner_text(f, 0, in_tail) =~= out@);
    while idx < xs.len()
        invariant
            idx <= xs.len(),
            f == forest(xs@),
            prev_kind == if idx > 0 {
                kind_of(f[idx - 1])
            } else {
                WriterNode::Nil
            },
            out@ == old(out)@ + oneliner_text(f, idx as int, in_tail),
        decreases xs.len() - idx,
    {
        let ghost i = idx as int;
        let ghost before = out@;
        proof {
            assert(f[i] == xs[i]@);
            assert(decreases_to!(*xs => xs[i]));
        }
        if idx > 0 {
            out.push(' ');
        }
        let ghost spaced = out@;
        let cursor = &xs[idx];
        let at_tail = idx != 0 && !in_tail && prev_kind == WriterNode::Leaf && idx == xs.len()
            - 1;
        match cursor {
            Cirru::Leaf(s) => {
                push_leaf(out, s.as_str());
            },
            Cirru::List(ys) => {
                proof {
                    lemma_list_view(*ys);
                    assert(decreases_to!(xs[i] => *ys));
                }
                if at_tail {
                    out.push('$');
                    if ys.len() > 0 {
                        out.push(' ');
                        push_oneliner(out, ys, true);
                        assert(out@ =~= spaced + (seq!['$', ' '] + oneliner_text(
                            forest(ys@),
                            ys.len() as int,
                            true,
                        )));
                    } else {
                        assert(out@ =~= spaced + seq!['$']);
                    }
                } else {
                    let piece = generate_inline_expr(ys);
                    out.append(piece.as_str());
                }
            },
        }
        proof {
            let sep = if i > 0 {
                seq![' ']
            } else {
                Seq::<char>::empty()
            };
            assert(spaced =~= before + sep);
            assert(out@ =~= old(out)@ + oneliner_text(f, i + 1, in_tail));
        }
        prev_kind = get_node_kind(cursor);
        idx += 1;
    }
}

/// The items `xs` of one expression as written on one line.
pub fn generate_statement_oneliner(xs: &Vec<Cirru>) -> (res: String)
    ensures
        res@ == oneliner_text(forest(xs@), xs.len() as int, false),
{
    let mut ret = String::new();
    push_oneliner(&mut ret, xs, false);
    assert(Seq::<char>::empty() + oneliner_text(forest(xs@), xs.len() as int, false)
        =~= oneliner_text(forest(xs@), xs.len() as int, false));
    ret
}

/// The message of the error for a leaf where an expression is expected.
pub open spec fn expects_list_message() -> Seq<char> {
    "expected an expression, got a leaf"@
}

/// Writes one expression on one line, without line breaks or
/// indentation and without parentheses around the whole. The lists in it
/// are written in parentheses, except for a last list after a leaf, which
/// is written after `$`.
pub fn format_expr_oneliner(expr: &Cirru) -> (res: Result<String, String>)
    ensures
        match expr@ {
            Tree::Leaf(_) => res matches Err(m) && m@ == expects_list_message(),
            Tree::List(cs) => res matches Ok(s) && s@ == oneliner_text(cs, cs.len() as int, false),
        },
{
    match expr {
        Cirru::Leaf(_) => Err(String::from_str("expected an expression, got a leaf")),
        Cirru::List(cs) => {
            proof {
                lemma_list_view(*cs);
            }
            Ok(generate_statement_oneliner(cs))
        },
    }
}

/// Writes one expression on one line, as [`format_expr_oneliner`] does:
/// the name that pairs with `parse_expr_one_liner`.
pub fn format_expr_one_liner(expr: &Cirru) -> (res: Result<String, String>)
    ensures
        match expr@ {
            Tree::Leaf(_) => res matches Err(m) && m@ == expects_list_message(),
            Tree::List(cs) => res matches Ok(s) && s@ == oneliner_text(cs, cs.len() as int, false),
        },
{
    format_expr_oneliner(expr)
}

/// Writes the top-level expressions `ys`.
pub fn generate_statements(ys: &[Cirru], options: CirruWriterOptions) -> (res: Result<
    String,
    String,
>)
    ensures
        match format_spec(forest(ys@), options.use_inline) {
            Ok(text) => res matches Ok(s) && s@ == text,
            Err(msg) => res matches Err(m) && m@ == msg,
        },
{
    let ghost f = forest(ys@);
    let mut zs = String::new();
    let mut i: usize = 0;
    proof {
        assert(f.take(0) =~= Seq::<Tree>::empty());
    }
    while i < ys.len()
        invariant
            i <= ys.len(),
            f == forest(ys@),
            all_lists(f.take(i as int)),
            zs@ == statements_text(f.take(i as int), options.use_inline),
        decreases ys.len() - i,
    {
        proof {
            assert(f.take(i + 1).drop_last() =~= f.take(i as int));
            assert(f.take(i + 1).last() == ys[i as int]@);
        }
        match &ys[i] {
            Cirru::Leaf(_) => {
                assert(f[i as int] is Leaf);
                return Err(String::from_str("expected an expression at top level"));
            },
            Cirru::List(cs) => {
                proof {
                    lemma_list_view(*cs);
                    reveal_strlit("\n");
                    assert("\n"@ =~= newline_text(0));
                }
                let ghost before = zs@;
                zs.push('\n');
                let body = generate_tree(cs, true, options, "\n", Ghost(0), false);
                zs.append(body.as_str());
                zs.push('\n');
                assert(zs@ =~= before + seq!['\n'] + body@ + seq!['\n']);
                assert forall|j: int| 0 <= j < f.take(i + 1).len() implies #[trigger] f.take(
                    i + 1,
                )[j] is List by {
                    if j < i {
                        assert(f.take(i as int)[j] is List);
                    }
                }
            },
        }
        i += 1;
    }
    proof {
        assert(f.take(ys.len() as int) =~= f);
    }
    Ok(zs)
}

} // verus!
