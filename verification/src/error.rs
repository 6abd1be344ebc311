//! Errors of parsing, with the place in the source where they arose.
use crate::text::{decimal, decimal_chars, push_chars, push_decimal, push_repeat, repeat};
use vstd::prelude::*;
use vstd::std_specs::convert::FromSpecImpl;
use vstd::string::*;

verus! {

/// A place in the source text.
#[derive(Debug, Clone, Copy, PartialEq, Eq, Structural)]
pub struct SourcePos {
    /// Line number, counted from 1.
    pub line: usize,
    /// Column number in characters, counted from 1.
    pub column: usize,
    /// Byte offset in the source.
    pub offset: usize,
}

/// Where an error arose, and in which context.
#[derive(Debug, Clone, PartialEq)]
pub struct ErrorContext {
    /// The place of the error.
    pub pos: SourcePos,
    /// A piece of code around the error, if one was taken.
    pub snippet: Option<String>,
    /// What was being read, such as "in string".
    pub context_info: String,
}

/// The kinds of errors.
#[derive(Debug, Clone, PartialEq, Eq)]
pub enum CirruErrorKind {
    /// A character that cannot stand where it was found.
    UnexpectedChar(char),
    /// The input ended inside a string or a list.
    UnexpectedEof,
    /// A parenthesis without its partner.
    UnmatchedParen,
    /// A line indented by an odd number of spaces.
    InvalidIndentation(u8),
    /// A line break inside a quoted string.
    UnexpectedNewlineInString,
    /// A backslash followed by a character that names no escape.
    InvalidEscape(char),
    /// A closing parenthesis where none can stand.
    UnexpectedCloseParen,
    /// Another number of top-level expressions than was asked for.
    WrongExprCount { expected: usize, got: usize },
    /// Any other error, with its message.
    Other(String),
}

/// An error of parsing.
#[derive(Debug, Clone, PartialEq)]
pub struct CirruError {
    pub kind: CirruErrorKind,
    pub context: Option<ErrorContext>,
}

/// The mathematical value of a [`CirruErrorKind`].
pub enum KindView {
    UnexpectedChar(char),
    UnexpectedEof,
    UnmatchedParen,
    InvalidIndentation(u8),
    UnexpectedNewlineInString,
    InvalidEscape(char),
    UnexpectedCloseParen,
    WrongExprCount { expected: usize, got: usize },
    Other(Seq<char>),
}

/// The mathematical value of an [`ErrorContext`].
pub struct ContextView {
    pub pos: SourcePos,
    pub snippet: Option<Seq<char>>,
    pub context_info: Seq<char>,
}

/// The mathematical value of a [`CirruError`].
pub struct ErrorView {
    pub kind: KindView,
    pub context: Option<ContextView>,
}

impl View for CirruErrorKind {
    type V = KindView;

    open spec fn view(&self) -> KindView {
        match self {
            CirruErrorKind::UnexpectedChar(c) => KindView::UnexpectedChar(*c),
            CirruErrorKind::UnexpectedEof => KindView::UnexpectedEof,
            CirruErrorKind::UnmatchedParen => KindView::UnmatchedParen,
            CirruErrorKind::InvalidIndentation(n) => KindView::InvalidIndentation(*n),
            CirruErrorKind::UnexpectedNewlineInString => KindView::UnexpectedNewlineInString,
            CirruErrorKind::InvalidEscape(c) => KindView::InvalidEscape(*c),
            CirruErrorKind::UnexpectedCloseParen => KindView::UnexpectedCloseParen,
            CirruErrorKind::WrongExprCount { expected, got } => KindView::WrongExprCount {
                expected: *expected,
                got: *got,
            },
            CirruErrorKind::Other(m) => KindView::Other(m@),
        }
    }
}

impl View for ErrorContext {
    type V = ContextView;

    open spec fn view(&self) -> ContextView {
        ContextView {
            pos: self.pos,
            snippet: match self.snippet {
                Some(s) => Some(s@),
                None => None,
            },
            context_info: self.context_info@,
        }
    }
}

impl View for CirruError {
    type V = ErrorView;

    open spec fn view(&self) -> ErrorView {
        ErrorView {
            kind: self.kind@,
            context: match self.context {
                Some(c) => Some(c@),
                None => None,
            },
        }
    }
}

impl SourcePos {
    pub fn new(line: usize, column: usize, offset: usize) -> (res: Self)
        ensures
            res == (SourcePos { line, column, offset }),
    {
        SourcePos { line, column, offset }
    }
}

impl ErrorContext {
    pub fn new(pos: SourcePos, snippet: Option<String>, context_info: String) -> (res: Self)
        ensures
            res == (ErrorContext { pos, snippet, context_info }),
    {
        ErrorContext { pos, snippet, context_info }
    }
}

impl CirruError {
    /// An error of the given kind, without a place.
    pub fn new(kind: CirruErrorKind) -> (res: Self)
        ensures
            res == (CirruError { kind, context: None }),
    {
        CirruError { kind, context: None }
    }

    /// An error of the given kind at the given place.
    pub fn with_context(kind: CirruErrorKind, context: ErrorContext) -> (res: Self)
        ensures
            res == (CirruError { kind, context: Some(context) }),
    {
        CirruError { kind, context: Some(context) }
    }

    /// An error of kind `Other` that carries the message.
    pub fn from_message(msg: &str) -> (res: Self)
        ensures
            res@ == (ErrorView { kind: KindView::Other(msg@), context: None }),
    {
        CirruError::new(CirruErrorKind::Other(msg.to_owned()))
    }
}

/// A place as shown in messages.
pub open spec fn pos_text(pos: SourcePos) -> Seq<char> {
    "line "@ + decimal(pos.line as nat) + ", column "@ + decimal(pos.column as nat)
}

/// The message of each kind of error.
pub open spec fn kind_message(kind: KindView) -> Seq<char> {
    match kind {
        KindView::UnexpectedChar(c) => "Unexpected character '"@ + seq![c] + "'"@,
        KindView::UnexpectedEof => "Unexpected end of file"@,
        KindView::UnmatchedParen => "Unmatched parenthesis"@,
        KindView::InvalidIndentation(n) => "Invalid indentation (odd number: "@ + decimal(
            n as nat,
        ) + ")"@,
        KindView::UnexpectedNewlineInString => "Unexpected newline in string literal"@,
        KindView::InvalidEscape(c) => "Invalid escape sequence '\\"@ + seq![c] + "'"@,
        KindView::UnexpectedCloseParen => "Unexpected closing parenthesis ')'"@,
        KindView::WrongExprCount { expected, got } => "Expected "@ + decimal(expected as nat)
            + " expression(s), but got "@ + decimal(got as nat),
        KindView::Other(msg) => msg,
    }
}

/// The message of an error: that of its kind, then its place if it has one.
pub open spec fn error_text(e: ErrorView) -> Seq<char> {
    match e.context {
        None => kind_message(e.kind),
        Some(ctx) => kind_message(e.kind) + " at "@ + pos_text(ctx.pos),
    }
}

/// What the scan of a text for its lines holds between two characters.
pub struct LineScan {
    /// The lines that have ended.
    pub done: Seq<Seq<char>>,
    /// The line that is being read.
    pub current: Seq<char>,
}

/// The line `s` without one carriage return at its end.
pub open spec fn strip_cr(s: Seq<char>) -> Seq<char> {
    if s.len() > 0 && s.last() == '\r' {
        s.drop_last()
    } else {
        s
    }
}

/// The scan after the first `n` characters of `s`.
pub open spec fn line_scan(s: Seq<char>, n: int) -> LineScan
    decreases n,
{
    if n <= 0 || n > s.len() {
        LineScan { done: Seq::empty(), current: Seq::empty() }
    } else {
        let before = line_scan(s, n - 1);
        if s[n - 1] == '\n' {
            LineScan { done: before.done.push(strip_cr(before.current)), current: Seq::empty() }
        } else {
            LineScan { done: before.done, current: before.current.push(s[n - 1]) }
        }
    }
}

/// The lines of the text `s`. A line ends with a line feed, or with a
/// carriage return and a line feed, neither of which belongs to it; the
/// last line needs no end, and is no line if nothing stands in it.
pub open spec fn lines(s: Seq<char>) -> Seq<Seq<char>> {
    let scan = line_scan(s, s.len() as int);
    if scan.current.len() > 0 {
        scan.done.push(scan.current)
    } else {
        scan.done
    }
}

/// The number `n` in a column of four characters, flush right.
pub open spec fn padded_number(n: nat) -> Seq<char> {
    let d = decimal(n);
    if d.len() >= 4 {
        d
    } else {
        repeat(' ', (4 - d.len()) as nat) + d
    }
}

/// The line at index `k` as shown in a snippet: its number, a bar and
/// the line; below the line of the error, a caret under its column.
pub open spec fn snippet_line(ls: Seq<Seq<char>>, k: int, pos: SourcePos) -> Seq<char> {
    padded_number((k + 1) as nat) + " | "@ + ls[k] + seq!['\n'] + if k + 1 == pos.line {
        "     | "@ + repeat(
            ' ',
            if pos.column >= 1 {
                (pos.column - 1) as nat
            } else {
                0
            },
        ) + seq!['^', '\n']
    } else {
        Seq::empty()
    }
}

/// The lines from index `start` up to `end` as shown in a snippet.
pub open spec fn snippet_run(ls: Seq<Seq<char>>, start: int, end: int, pos: SourcePos) -> Seq<
    char,
>
    decreases end - start,
{
    if end <= start {
        Seq::empty()
    } else {
        snippet_run(ls, start, end - 1, pos) + snippet_line(ls, end - 1, pos)
    }
}

/// The snippet of `code` around `pos`: the line of the error with the
/// line before it and the line after it, as far as they exist; none if
/// the code has no such line.
pub open spec fn snippet_spec(code: Seq<char>, pos: SourcePos) -> Option<Seq<char>> {
    let ls = lines(code);
    if pos.line == 0 || pos.line > ls.len() {
        None
    } else {
        let idx = pos.line - 1;
        let start = if idx >= 1 {
            idx - 1
        } else {
            0
        };
        let end = if idx + 2 <= ls.len() {
            idx + 2
        } else {
            ls.len() as int
        };
        Some(snippet_run(ls, start, end, pos))
    }
}

/// What follows the message in the detailed form of an error with a
/// context: its place, its context, and the snippet that it carries or,
/// without one, the snippet taken from the source if that is given.
pub open spec fn context_text(ctx: ContextView, source: Option<Seq<char>>) -> Seq<char> {
    "\n  at "@ + pos_text(ctx.pos) + "\n  context: "@ + ctx.context_info + match ctx.snippet {
        Some(snippet) => "\n  near (escaped): "@ + snippet,
        None => match source {
            None => Seq::empty(),
            Some(code) => match snippet_spec(code, ctx.pos) {
                None => Seq::empty(),
                Some(snippet) => "\n\n"@ + snippet,
            },
        },
    }
}

/// The detailed form of an error.
pub open spec fn detailed_text(e: ErrorView, source: Option<Seq<char>>) -> Seq<char> {
    "Error: "@ + kind_message(e.kind) + match e.context {
        None => Seq::empty(),
        Some(ctx) => context_text(ctx, source),
    }
}

/// The views of a sequence of lines.
pub open spec fn line_views(ls: Seq<Vec<char>>) -> Seq<Seq<char>> {
    Seq::new(ls.len(), |i: int| ls[i]@)
}

/// The lines of `code`.
pub fn split_lines(code: &str) -> (res: Vec<Vec<char>>)
    ensures
        line_views(res@) == lines(code@),
{
    let mut done: Vec<Vec<char>> = Vec::new();
    let mut current: Vec<char> = Vec::new();
    assert(line_views(done@) =~= Seq::<Seq<char>>::empty());
    for c in it: code.chars()
        invariant
            it.seq() == code@,
            line_scan(code@, it.index() as int) == (LineScan {
                done: line_views(done@),
                current: current@,
            }),
    {
        if c == '\n' {
            if current.len() > 0 && current[current.len() - 1] == '\r' {
                current.pop();
            }
            let mut line: Vec<char> = Vec::new();
            core::mem::swap(&mut current, &mut line);
            proof {
                assert(line_views(done@.push(line)) =~= line_views(done@).push(line@));
            }
            done.push(line);
        } else {
            current.push(c);
        }
    }
    if current.len() > 0 {
        proof {
            assert(line_views(done@.push(current)) =~= line_views(done@).push(current@));
        }
        done.push(current);
    }
    done
}

/// Appends the number `n` in a column of four characters, flush right.
fn push_padded(out: &mut String, n: usize)
    ensures
        final(out)@ == old(out)@ + padded_number(n as nat),
{
    let d = decimal_chars(n);
    if d.len() < 4 {
        push_repeat(out, ' ', 4 - d.len());
    }
    push_chars(out, &d);
    assert(out@ =~= old(out)@ + padded_number(n as nat));
}

/// The snippet of `code` around `pos`: the line of the error between the
/// line before it and the line after it, each with its number, and a
/// caret under the column of the error.
pub fn extract_snippet(code: &str, pos: &SourcePos) -> (res: Option<String>)
    ensures
        match snippet_spec(code@, *pos) {
            Some(text) => res matches Some(s) && s@ == text,
            None => res is None,
        },
{
    let ls = split_lines(code);
    if pos.line == 0 || pos.line > ls.len() {
        return None;
    }
    let ghost views = line_views(ls@);
    let line_idx = pos.line - 1;
    let start = if line_idx >= 1 {
        line_idx - 1
    } else {
        0
    };
    let end = if line_idx + 1 < ls.len() {
        line_idx + 2
    } else {
        ls.len()
    };
    let mut snippet = String::new();
    let mut k: usize = start;
    assert(snippet@ =~= snippet_run(views, start as int, start as int, *pos));
    while k < end
        invariant
            start <= k <= end <= ls.len(),
            views == line_views(ls@),
            snippet@ == snippet_run(views, start as int, k as int, *pos),
        decreases end - k,
    {
        let ghost before = snippet@;
        push_padded(&mut snippet, k + 1);
        snippet.append(" | ");
        push_chars(&mut snippet, &ls[k]);
        snippet.push('\n');
        if k + 1 == pos.line {
            snippet.append("     | ");
            push_repeat(
                &mut snippet,
                ' ',
                if pos.column >= 1 {
                    pos.column - 1
                } else {
                    0
                },
            );
            snippet.push('^');
            snippet.push('\n');
        }
        proof {
            assert(views[k as int] == ls[k as int]@);
            assert(snippet@ =~= before + snippet_line(views, k as int, *pos));
        }
        k += 1;
    }
    Some(snippet)
}

impl SourcePos {
    /// Appends the place as shown in messages.
    fn push_to(&self, out: &mut String)
        ensures
            final(out)@ == old(out)@ + pos_text(*self),
    {
        out.append("line ");
        push_decimal(out, self.line);
        out.append(", column ");
        push_decimal(out, self.column);
        assert(out@ =~= old(out)@ + pos_text(*self));
    }

    /// The place as shown in messages: its line and its column.
    pub fn to_string(&self) -> (res: String)
        ensures
            res@ == pos_text(*self),
    {
        let mut out = String::new();
        self.push_to(&mut out);
        assert(Seq::<char>::empty() + pos_text(*self) =~= pos_text(*self));
        out
    }
}

impl CirruErrorKind {
    /// Appends the message of the kind.
    fn push_to(&self, out: &mut String)
        ensures
            final(out)@ == old(out)@ + kind_message(self@),
    {
        match self {
            CirruErrorKind::UnexpectedChar(c) => {
                out.append("Unexpected character '");
                out.push(*c);
                out.append("'");
                assert(out@ =~= old(out)@ + kind_message(self@));
            },
            CirruErrorKind::UnexpectedEof => {
                out.append("Unexpected end of file");
            },
            CirruErrorKind::UnmatchedParen => {
                out.append("Unmatched parenthesis");
            },
            CirruErrorKind::InvalidIndentation(n) => {
                out.append("Invalid indentation (odd number: ");
                push_decimal(out, *n as usize);
                out.append(")");
                assert(out@ =~= old(out)@ + kind_message(self@));
            },
            CirruErrorKind::UnexpectedNewlineInString => {
                out.append("Unexpected newline in string literal");
            },
            CirruErrorKind::InvalidEscape(c) => {
                out.append("Invalid escape sequence '\\");
                out.push(*c);
                out.append("'");
                assert(out@ =~= old(out)@ + kind_message(self@));
            },
            CirruErrorKind::UnexpectedCloseParen => {
                out.append("Unexpected closing parenthesis ')'");
            },
            CirruErrorKind::WrongExprCount { expected, got } => {
                out.append("Expected ");
                push_decimal(out, *expected);
                out.append(" expression(s), but got ");
                push_decimal(out, *got);
                assert(out@ =~= old(out)@ + kind_message(self@));
            },
            CirruErrorKind::Other(msg) => {
                out.append(msg.as_str());
            },
        }
    }

    /// The message of the kind.
    pub fn to_string(&self) -> (res: String)
        ensures
            res@ == kind_message(self@),
    {
        let mut out = String::new();
        self.push_to(&mut out);
        assert(Seq::<char>::empty() + kind_message(self@) =~= kind_message(self@));
        out
    }
}

impl CirruError {
    /// The message of the error: that of its kind, then its place if it
    /// has one.
    pub fn to_string(&self) -> (res: String)
        ensures
            res@ == error_text(self@),
    {
        let mut out = self.kind.to_string();
        match &self.context {
            Some(ctx) => {
                out.append(" at ");
                ctx.pos.push_to(&mut out);
            },
            None => {},
        }
        out
    }

    /// The error in detail: its message, its place and context, and a
    /// snippet of the code around it. The snippet is the one that the
    /// error carries; if it carries none and the source is given, the
    /// snippet is taken from the source.
    pub fn format_detailed(&self, source_code: Option<&str>) -> (res: String)
        ensures
            res@ == detailed_text(
                self@,
                match source_code {
                    Some(code) => Some(code@),
                    None => None,
                },
            ),
    {
        let mut output = String::from_str("Error: ");
        self.kind.push_to(&mut output);
        let ghost head = output@;
        match &self.context {
            Some(ctx) => {
                output.append("\n  at ");
                ctx.pos.push_to(&mut output);
                output.append("\n  context: ");
                output.append(ctx.context_info.as_str());
                let ghost mid = output@;
                match &ctx.snippet {
                    Some(snippet) => {
                        output.append("\n  near (escaped): ");
                        output.append(snippet.as_str());
                    },
                    None => {
                        match source_code {
                            Some(code) => {
                                match extract_snippet(code, &ctx.pos) {
                                    Some(snippet) => {
                                        output.append("\n\n");
                                        output.append(snippet.as_str());
                                    },
                                    None => {
                                        assert(mid + Seq::<char>::empty() =~= mid);
                                    },
                                }
                            },
                            None => {
                                assert(mid + Seq::<char>::empty() =~= mid);
                            },
                        }
                    },
                }
                assert(output@ =~= head + context_text(
                    ctx@,
                    match source_code {
                        Some(code) => Some(code@),
                        None => None,
                    },
                ));
            },
            None => {
                assert(head + Seq::<char>::empty() =~= head);
            },
        }
        output
    }
}

impl From<String> for CirruError {
    fn from(msg: String) -> (res: Self)
        ensures
            res@ == (ErrorView { kind: KindView::Other(msg@), context: None }),
    {
        CirruError::new(CirruErrorKind::Other(msg))
    }
}

impl FromSpecImpl<String> for CirruError {
    open spec fn obeys_from_spec() -> bool {
        true
    }

    open spec fn from_spec(msg: String) -> Self {
        CirruError { kind: CirruErrorKind::Other(msg), context: None }
    }
}

impl<'a> From<&'a str> for CirruError {
    fn from(msg: &'a str) -> (res: Self)
        ensures
            res@ == (ErrorView { kind: KindView::Other(msg@), context: None }),
    {
        CirruError::from_message(msg)
    }
}

impl<'a> FromSpecImpl<&'a str> for CirruError {
    open spec fn obeys_from_spec() -> bool {
        false
    }

    open spec fn from_spec(msg: &'a str) -> Self {
        arbitrary()
    }
}

impl From<CirruError> for String {
    fn from(error: CirruError) -> (res: Self)
        ensures
            res@ == error_text(error@),
    {
        error.to_string()
    }
}

impl FromSpecImpl<CirruError> for String {
    open spec fn obeys_from_spec() -> bool {
        false
    }

    open spec fn from_spec(error: CirruError) -> Self {
        arbitrary()
    }
}

} // verus!
