//! The tree of Cirru code, the lexer's tokens, and how leaves are escaped.
use crate::text::text_eq;
use vstd::prelude::*;
use vstd::std_specs::convert::FromSpecImpl;
use vstd::string::*;

verus! {

/// The mathematical value of a [`Cirru`] node: a leaf of characters or an
/// ordered list of trees.
pub enum Tree {
    Leaf(Seq<char>),
    List(Seq<Tree>),
}

/// Cirru code is a tree of leaves (text) and lists (of further nodes).
#[derive(Debug, PartialEq, Eq, Hash, PartialOrd, Ord)]
pub enum Cirru {
    Leaf(String),
    List(Vec<Cirru>),
}

/// The states of the lexer's cursor.
#[derive(Clone, Copy, Debug, PartialEq, Eq, Structural)]
pub enum CirruLexState {
    /// After a space, a parenthesis or a closed string.
    Space,
    /// Inside a bare token.
    Token,
    /// After a backslash inside a string.
    Escape,
    /// At the start of a line, counting its indentation.
    Indent,
    /// Inside a quoted string.
    Str,
}

/// The mathematical value of a [`CirruLexItem`].
pub enum Token {
    Open,
    Close,
    Indent(u8),
    Str(Seq<char>),
}

/// A token of the lexer.
#[derive(Debug, PartialEq, Eq, PartialOrd, Ord)]
pub enum CirruLexItem {
    /// `(`
    Open,
    /// `)`
    Close,
    /// The indentation of a line, in units of two spaces.
    Indent(u8),
    /// A bare token or the content of a quoted string.
    Str(String),
}

/// A list of tokens.
pub type CirruLexItemList = Vec<CirruLexItem>;

impl View for Cirru {
    type V = Tree;

    open spec fn view(&self) -> Tree
        decreases self,
    {
        match self {
            Cirru::Leaf(s) => Tree::Leaf(s@),
            Cirru::List(xs) => Tree::List(
                Seq::new(
                    xs.len() as nat,
                    |i: int|
                        if 0 <= i < xs.len() {
                            xs[i]@
                        } else {
                            Tree::List(Seq::empty())
                        },
                ),
            ),
        }
    }
}

impl View for CirruLexItem {
    type V = Token;

    open spec fn view(&self) -> Token {
        match self {
            CirruLexItem::Open => Token::Open,
            CirruLexItem::Close => Token::Close,
            CirruLexItem::Indent(n) => Token::Indent(*n),
            CirruLexItem::Str(s) => Token::Str(s@),
        }
    }
}

/// The values of a sequence of nodes.
pub open spec fn forest(xs: Seq<Cirru>) -> Seq<Tree> {
    Seq::new(xs.len(), |i: int| xs[i]@)
}

/// The values of a sequence of tokens.
pub open spec fn tokens(xs: Seq<CirruLexItem>) -> Seq<Token> {
    Seq::new(xs.len(), |i: int| xs[i]@)
}

/// The value of a list node is the list of its items' values.
pub proof fn lemma_list_view(xs: Vec<Cirru>)
    ensures
        Cirru::List(xs)@ == Tree::List(forest(xs@)),
{
    assert(Cirru::List(xs)@->List_0 =~= forest(xs@));
}

pub proof fn lemma_forest_push(xs: Seq<Cirru>, x: Cirru)
    ensures
        forest(xs.push(x)) == forest(xs).push(x@),
{
    assert(forest(xs.push(x)) =~= forest(xs).push(x@));
}

pub proof fn lemma_tokens_push(xs: Seq<CirruLexItem>, x: CirruLexItem)
    ensures
        tokens(xs.push(x)) == tokens(xs).push(x@),
{
    assert(tokens(xs.push(x)) =~= tokens(xs).push(x@));
}

impl Clone for Cirru {
    fn clone(&self) -> (res: Self)
        ensures
            res@ == self@,
        decreases self,
    {
        match self {
            Cirru::Leaf(s) => Cirru::Leaf(s.clone()),
            Cirru::List(xs) => {
                let mut ys: Vec<Cirru> = Vec::new();
                let mut i: usize = 0;
                while i < xs.len()
                    invariant
                        self is List,
                        *xs == self->List_0,
                        i <= xs.len(),
                        ys@.len() == i,
                        forall|j: int| 0 <= j < i ==> ys[j]@ == xs[j]@,
                    decreases xs.len() - i,
                {
                    assert(decreases_to!(*self => self->List_0));
                    assert(decreases_to!(*xs => xs[i as int]));
                    let y = xs[i].clone();
                    ys.push(y);
                    i += 1;
                }
                assert(Cirru::List(ys)@->List_0 =~= self@->List_0);
                Cirru::List(ys)
            },
        }
    }
}

impl Clone for CirruLexItem {
    fn clone(&self) -> (res: Self)
        ensures
            res@ == self@,
    {
        match self {
            CirruLexItem::Open => CirruLexItem::Open,
            CirruLexItem::Close => CirruLexItem::Close,
            CirruLexItem::Indent(n) => CirruLexItem::Indent(*n),
            CirruLexItem::Str(s) => CirruLexItem::Str(s.clone()),
        }
    }
}

/// A character that may stand in a leaf that is displayed without quotes.
pub open spec fn is_normal_char(c: char) -> bool {
    ||| 'A' <= c <= 'Z'
    ||| 'a' <= c <= 'z'
    ||| '0' <= c <= '9'
    ||| c == '-'
    ||| c == '?'
    ||| c == '!'
    ||| c == '+'
    ||| c == '*'
    ||| c == '$'
    ||| c == '@'
    ||| c == '#'
    ||| c == '%'
    ||| c == '&'
    ||| c == '_'
    ||| c == '='
    ||| c == '|'
    ||| c == ':'
    ||| c == '.'
    ||| c == '<'
    ||| c == '>'
}

/// A text all of whose characters are normal; the empty text is one.
pub open spec fn is_normal_text(s: Seq<char>) -> bool {
    forall|i: int| 0 <= i < s.len() ==> is_normal_char(#[trigger] s[i])
}

/// How one character stands inside a quoted string: newline, tab, both
/// quotes and the backslash get a backslash escape, all others stand for
/// themselves.
pub open spec fn escape_char(c: char) -> Seq<char> {
    if c == '\n' {
        seq!['\\', 'n']
    } else if c == '\t' {
        seq!['\\', 't']
    } else if c == '"' {
        seq!['\\', '"']
    } else if c == '\\' {
        seq!['\\', '\\']
    } else if c == '\'' {
        seq!['\\', '\'']
    } else {
        seq![c]
    }
}

/// The characters of `s`, each escaped, in order.
pub open spec fn escape_text(s: Seq<char>) -> Seq<char>
    decreases s.len(),
{
    if s.len() == 0 {
        Seq::empty()
    } else {
        escape_text(s.drop_last()) + escape_char(s.last())
    }
}

/// The text `s` as a quoted string.
pub open spec fn quoted(s: Seq<char>) -> Seq<char> {
    seq!['"'] + escape_text(s) + seq!['"']
}

/// The items of a list as displayed, separated by single spaces.
pub open spec fn display_items(xs: Seq<Tree>) -> Seq<char>
    decreases xs, 0nat,
{
    if xs.len() == 0 {
        Seq::empty()
    } else if xs.len() == 1 {
        display(xs[0])
    } else {
        display_items(xs.drop_last()) + seq![' '] + display(xs.last())
    }
}

/// A tree as displayed on one line: a normal leaf bare, any other leaf
/// quoted, a list in parentheses.
pub open spec fn display(t: Tree) -> Seq<char>
    decreases t, 1nat,
{
    match t {
        Tree::Leaf(s) => if is_normal_text(s) {
            s
        } else {
            quoted(s)
        },
        Tree::List(xs) => seq!['('] + display_items(xs) + seq![')'],
    }
}

/// Whether `t` is the leaf `;` or `;;`, which opens a comment.
pub open spec fn is_comment_tree(t: Tree) -> bool {
    t == Tree::Leaf(seq![';']) || t == Tree::Leaf(seq![';', ';'])
}

/// Whether `t` is a list with an item that is a list with items of its own.
pub open spec fn is_nested_tree(t: Tree) -> bool {
    t matches Tree::List(xs) && exists|i: int|
        0 <= i < xs.len() && (#[trigger] xs[i] matches Tree::List(ys) && ys.len() > 0)
}

/// Appends `c` as it stands inside a quoted string.
pub fn push_escaped(out: &mut String, c: char)
    ensures
        final(out)@ == old(out)@ + escape_char(c),
{
    if c == '\n' {
        out.push('\\');
        out.push('n');
    } else if c == '\t' {
        out.push('\\');
        out.push('t');
    } else if c == '"' {
        out.push('\\');
        out.push('"');
    } else if c == '\\' {
        out.push('\\');
        out.push('\\');
    } else if c == '\'' {
        out.push('\\');
        out.push('\'');
    } else {
        out.push(c);
    }
    assert(out@ =~= old(out)@ + escape_char(c));
}

/// Appends `s` as a quoted string to `out`.
pub fn push_quoted(out: &mut String, s: &str)
    ensures
        final(out)@ == old(out)@ + quoted(s@),
{
    out.push('"');
    let ghost start = out@;
    assert(start + escape_text(s@.take(0)) =~= start);
    for c in it: s.chars()
        invariant
            it.seq() == s@,
            out@ == start + escape_text(s@.take(it.index() as int)),
    {
        push_escaped(out, c);
        proof {
            let i = it.index() as int;
            assert(s@.take(i + 1).drop_last() =~= s@.take(i));
            assert(s@.take(i + 1).last() == c);
            assert(start + escape_text(s@.take(i + 1)) =~= start + escape_text(s@.take(i))
                + escape_char(c));
        }
    }
    assert(s@.take(s@.len() as int) =~= s@);
    out.push('"');
    assert(out@ =~= old(out)@ + quoted(s@));
}

/// The leaf text `s` as a quoted string, with newline, tab, quotes and
/// backslash escaped.
pub fn escape_cirru_leaf(s: &str) -> (res: String)
    ensures
        res@ == quoted(s@),
{
    let mut chunk = String::new();
    push_quoted(&mut chunk, s);
    assert(Seq::<char>::empty() + quoted(s@) =~= quoted(s@));
    chunk
}

/// Whether `c` may stand in a leaf that is displayed without quotes.
pub fn is_normal(c: char) -> (r: bool)
    ensures
        r == is_normal_char(c),
{
    ('A' <= c && c <= 'Z') || ('a' <= c && c <= 'z') || ('0' <= c && c <= '9') || c == '-' || c
        == '?' || c == '!' || c == '+' || c == '*' || c == '$' || c == '@' || c == '#' || c == '%'
        || c == '&' || c == '_' || c == '=' || c == '|' || c == ':' || c == '.' || c == '<' || c
        == '>'
}

impl CirruLexItem {
    /// Whether every character of `tok` is normal, so that the leaf is
    /// displayed without quotes.
    pub fn is_normal_str(tok: &str) -> (r: bool)
        ensures
            r == is_normal_text(tok@),
    {
        for c in it: tok.chars()
            invariant
                it.seq() == tok@,
                forall|i: int| 0 <= i < it.index() ==> is_normal_char(#[trigger] tok@[i]),
        {
            if !is_normal(c) {
                return false;
            }
        }
        true
    }
}

/// Appends `t` as displayed on one line.
pub fn push_display(out: &mut String, t: &Cirru)
    ensures
        final(out)@ == old(out)@ + display(t@),
    decreases t,
{
    match t {
        Cirru::Leaf(a) => {
            if CirruLexItem::is_normal_str(a.as_str()) {
                out.append(a.as_str());
            } else {
                push_quoted(out, a.as_str());
            }
        },
        Cirru::List(xs) => {
            out.push('(');
            let ghost start = out@;
            let mut idx: usize = 0;
            proof {
                lemma_list_view(*xs);
                assert(start + display_items(forest(xs@).take(0)) =~= start);
            }
            while idx < xs.len()
                invariant
                    t is List,
                    *xs == t->List_0,
                    idx <= xs.len(),
                    out@ == start + display_items(forest(xs@).take(idx as int)),
                decreases xs.len() - idx,
            {
                if idx > 0 {
                    out.push(' ');
                }
                assert(decreases_to!(*t => t->List_0));
                assert(decreases_to!(*xs => xs[idx as int]));
                push_display(out, &xs[idx]);
                proof {
                    let f = forest(xs@);
                    let i = idx as int;
                    assert(f.take(i + 1).drop_last() =~= f.take(i));
                    assert(f.take(i + 1).last() == xs[i]@);
                    if i > 0 {
                        assert(start + display_items(f.take(i + 1)) =~= start + display_items(
                            f.take(i),
                        ) + seq![' '] + display(xs[i]@));
                        assert(start + display_items(f.take(i)) + seq![' '] =~= (start
                            + display_items(f.take(i))).push(' '));
                    } else {
                        assert(f.take(1)[0] == xs[0]@);
                        assert(start + display_items(f.take(0)) =~= start);
                    }
                }
                idx += 1;
            }
            out.push(')');
            proof {
                let f = forest(xs@);
                assert(f.take(xs.len() as int) =~= f);
                assert(out@ =~= old(out)@ + display(t@));
            }
        },
    }
}

impl Cirru {
    /// For a leaf the number of bytes of its text in UTF-8, for a list the
    /// number of its items.
    pub fn len(&self) -> (n: usize)
        ensures
            n == match self@ {
                Tree::Leaf(s) => vstd::utf8::encode_utf8(s).len(),
                Tree::List(xs) => xs.len(),
            },
    {
        match self {
            Cirru::Leaf(s) => s.as_str().as_bytes().len(),
            Cirru::List(xs) => xs.len(),
        }
    }

    /// Whether the node is a leaf without text or a list without items.
    pub fn is_empty(&self) -> (r: bool)
        ensures
            r == match self@ {
                Tree::Leaf(s) => s.len() == 0,
                Tree::List(xs) => xs.len() == 0,
            },
    {
        match self {
            Cirru::Leaf(s) => s.as_str().is_empty(),
            Cirru::List(xs) => xs.len() == 0,
        }
    }

    /// A leaf with the text `s`.
    pub fn leaf(s: &str) -> (res: Self)
        ensures
            res@ == Tree::Leaf(s@),
    {
        Cirru::Leaf(s.to_owned())
    }

    /// Whether the node is a leaf with the text `s`.
    pub fn eq_leaf(&self, s: &str) -> (r: bool)
        ensures
            r == (self@ == Tree::Leaf(s@)),
    {
        match self {
            Cirru::Leaf(l) => text_eq(l.as_str(), s),
            Cirru::List(_) => false,
        }
    }

    /// Whether the node is a list with an item that is a list with items
    /// of its own: true for `a (b)`, false for `a b c` and for `a ()`.
    pub fn is_nested(&self) -> (r: bool)
        ensures
            r == is_nested_tree(self@),
    {
        match self {
            Cirru::Leaf(_) => false,
            Cirru::List(xs) => {
                let mut i: usize = 0;
                proof {
                    lemma_list_view(*xs);
                }
                while i < xs.len()
                    invariant
                        i <= xs.len(),
                        self@ == Tree::List(forest(xs@)),
                        forall|j: int|
                            0 <= j < i ==> !(#[trigger] forest(xs@)[j] matches Tree::List(ys)
                                && ys.len() > 0),
                    decreases xs.len() - i,
                {
                    if let Cirru::List(ys) = &xs[i] {
                        if ys.len() > 0 {
                            assert(forest(xs@)[i as int] == xs[i as int]@);
                            return true;
                        }
                    }
                    assert(forest(xs@)[i as int] == xs[i as int]@);
                    i += 1;
                }
                false
            },
        }
    }

    /// Whether the node is the leaf `;` or `;;`: a list that starts with
    /// one is a comment.
    pub fn is_comment(&self) -> (r: bool)
        ensures
            r == is_comment_tree(self@),
    {
        proof {
            reveal_strlit(";");
            reveal_strlit(";;");
            assert(";"@ =~= seq![';']);
            assert(";;"@ =~= seq![';', ';']);
        }
        match self {
            Cirru::List(_) => false,
            Cirru::Leaf(s) => text_eq(s.as_str(), ";") || text_eq(s.as_str(), ";;"),
        }
    }

    /// The node as displayed on one line: a normal leaf bare, any other
    /// leaf quoted, a list in parentheses with its items separated by
    /// single spaces.
    pub fn to_string(&self) -> (res: String)
        ensures
            res@ == display(self@),
    {
        let mut out = String::new();
        push_display(&mut out, self);
        assert(Seq::<char>::empty() + display(self@) =~= display(self@));
        out
    }
}

impl<'a> From<&'a str> for Cirru {
    fn from(value: &'a str) -> (res: Self)
        ensures
            res@ == Tree::Leaf(value@),
    {
        Cirru::Leaf(value.to_owned())
    }
}

impl<'a> FromSpecImpl<&'a str> for Cirru {
    open spec fn obeys_from_spec() -> bool {
        false
    }

    open spec fn from_spec(v: &'a str) -> Self {
        arbitrary()
    }
}

impl From<String> for Cirru {
    fn from(value: String) -> (res: Self)
        ensures
            res@ == Tree::Leaf(value@),
    {
        Cirru::Leaf(value)
    }
}

impl FromSpecImpl<String> for Cirru {
    open spec fn obeys_from_spec() -> bool {
        true
    }

    open spec fn from_spec(v: String) -> Self {
        Cirru::Leaf(v)
    }
}

impl From<Vec<Cirru>> for Cirru {
    fn from(value: Vec<Cirru>) -> (res: Self)
        ensures
            res@ == Tree::List(forest(value@)),
    {
        proof {
            lemma_list_view(value);
        }
        Cirru::List(value)
    }
}

impl FromSpecImpl<Vec<Cirru>> for Cirru {
    open spec fn obeys_from_spec() -> bool {
        true
    }

    open spec fn from_spec(v: Vec<Cirru>) -> Self {
        Cirru::List(v)
    }
}

/// The leaves with the given texts.
pub open spec fn leaves(texts: Seq<&str>) -> Seq<Tree> {
    Seq::new(texts.len(), |i: int| Tree::Leaf(texts[i]@))
}

/// A list of leaves with the given texts.
fn list_of_leaves(value: &[&str]) -> (res: Cirru)
    ensures
        res@ == Tree::List(leaves(value@)),
{
    let mut xs: Vec<Cirru> = Vec::new();
    let mut i: usize = 0;
    while i < value.len()
        invariant
            i <= value.len(),
            xs@.len() == i,
            forall|j: int| 0 <= j < i ==> xs[j]@ == Tree::Leaf(value[j]@),
        decreases value.len() - i,
    {
        xs.push(Cirru::leaf(value[i]));
        i += 1;
    }
    proof {
        lemma_list_view(xs);
        assert(forest(xs@) =~= leaves(value@));
    }
    Cirru::List(xs)
}

impl<'a> From<Vec<&'a str>> for Cirru {
    fn from(value: Vec<&'a str>) -> (res: Self)
        ensures
            res@ == Tree::List(leaves(value@)),
    {
        list_of_leaves(value.as_slice())
    }
}

impl<'a> FromSpecImpl<Vec<&'a str>> for Cirru {
    open spec fn obeys_from_spec() -> bool {
        false
    }

    open spec fn from_spec(v: Vec<&'a str>) -> Self {
        arbitrary()
    }
}

impl<'a, 'b> From<&'b [&'a str]> for Cirru {
    fn from(value: &'b [&'a str]) -> (res: Self)
        ensures
            res@ == Tree::List(leaves(value@)),
    {
        list_of_leaves(value)
    }
}

impl<'a, 'b> FromSpecImpl<&'b [&'a str]> for Cirru {
    open spec fn obeys_from_spec() -> bool {
        false
    }

    open spec fn from_spec(v: &'b [&'a str]) -> Self {
        arbitrary()
    }
}

impl<'a> From<&'a [Cirru]> for Cirru {
    fn from(value: &'a [Cirru]) -> (res: Self)
        ensures
            res@ == Tree::List(forest(value@)),
    {
        let mut xs: Vec<Cirru> = Vec::new();
        let mut i: usize = 0;
        while i < value.len()
            invariant
                i <= value.len(),
                xs@.len() == i,
                forall|j: int| 0 <= j < i ==> xs[j]@ == value[j]@,
            decreases value.len() - i,
        {
            xs.push(value[i].clone());
            i += 1;
        }
        proof {
            lemma_list_view(xs);
            assert(forest(xs@) =~= forest(value@));
        }
        Cirru::List(xs)
    }
}

impl<'a> FromSpecImpl<&'a [Cirru]> for Cirru {
    open spec fn obeys_from_spec() -> bool {
        false
    }

    open spec fn from_spec(v: &'a [Cirru]) -> Self {
        arbitrary()
    }
}

impl<'a> From<&'a str> for CirruLexItem {
    fn from(value: &'a str) -> (res: Self)
        ensures
            res@ == Token::Str(value@),
    {
        CirruLexItem::Str(value.to_owned())
    }
}

impl<'a> FromSpecImpl<&'a str> for CirruLexItem {
    open spec fn obeys_from_spec() -> bool {
        false
    }

    open spec fn from_spec(v: &'a str) -> Self {
        arbitrary()
    }
}

impl From<u8> for CirruLexItem {
    fn from(value: u8) -> (res: Self)
        ensures
            res == CirruLexItem::Indent(value),
    {
        CirruLexItem::Indent(value)
    }
}

impl FromSpecImpl<u8> for CirruLexItem {
    open spec fn obeys_from_spec() -> bool {
        true
    }

    open spec fn from_spec(v: u8) -> Self {
        CirruLexItem::Indent(v)
    }
}

} // verus!
