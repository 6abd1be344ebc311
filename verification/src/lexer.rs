//! The lexer: from characters to a flat sequence of tokens.
use crate::error::{
    CirruError, CirruErrorKind, ContextView, ErrorContext, ErrorView, KindView, SourcePos,
};
use crate::primes::{lemma_tokens_push, tokens, CirruLexItem, CirruLexState, Token};
use vstd::prelude::*;
use vstd::string::*;
use vstd::utf8::{char_is_scalar, encode_scalar, encode_utf8};

verus! {

/// What the lexer holds between two characters.
pub struct LexCursor {
    /// The state of the cursor.
    pub state: CirruLexState,
    /// The text of the token or string that is being read.
    pub buffer: Seq<char>,
    /// The number of spaces read at the start of the line.
    pub width: nat,
    /// The tokens emitted so far.
    pub acc: Seq<Token>,
}

/// Why and where lexing stopped.
pub struct LexFailure {
    pub kind: KindView,
    /// The index of the character at which lexing stopped; at the end of
    /// the input, that of its last character.
    pub index: int,
    /// The state of the cursor when it stopped.
    pub state: CirruLexState,
}

/// The token for a line indented by `size` spaces: half of `size` if it is
/// even, an error if it is odd.
pub open spec fn indent_of(size: u8) -> Result<Token, KindView> {
    if size % 2 == 0 {
        Ok(Token::Indent((size / 2) as u8))
    } else {
        Err(KindView::InvalidIndentation(size))
    }
}

/// The indentation token for a count of leading spaces, which is taken
/// modulo 256.
pub open spec fn indent_token(width: nat) -> Result<Token, KindView> {
    indent_of((width % 256) as u8)
}

pub open spec fn start_cursor() -> LexCursor {
    LexCursor { state: CirruLexState::Indent, buffer: Seq::empty(), width: 0, acc: Seq::empty() }
}

/// The cursor in `state` with an empty buffer and the tokens `acc`.
pub open spec fn cursor_at(state: CirruLexState, acc: Seq<Token>) -> LexCursor {
    LexCursor { state, buffer: Seq::empty(), width: 0, acc }
}

/// The cursor in `state` with the tokens `acc`, reading the text `buffer`.
pub open spec fn cursor_in(state: CirruLexState, buffer: Seq<char>, acc: Seq<Token>) -> LexCursor {
    LexCursor { state, buffer, width: 0, acc }
}

/// One step after a space, a parenthesis or a closed string.
pub open spec fn step_space(cur: LexCursor, c: char) -> LexCursor {
    if c == ' ' {
        cursor_at(CirruLexState::Space, cur.acc)
    } else if c == '\n' {
        cursor_at(CirruLexState::Indent, cur.acc)
    } else if c == '(' {
        cursor_at(CirruLexState::Space, cur.acc.push(Token::Open))
    } else if c == ')' {
        cursor_at(CirruLexState::Space, cur.acc.push(Token::Close))
    } else if c == '"' {
        cursor_at(CirruLexState::Str, cur.acc)
    } else {
        cursor_in(CirruLexState::Token, seq![c], cur.acc)
    }
}

/// One step inside a bare token.
pub open spec fn step_token(cur: LexCursor, c: char) -> LexCursor {
    let done = cur.acc.push(Token::Str(cur.buffer));
    if c == ' ' {
        cursor_at(CirruLexState::Space, done)
    } else if c == '"' {
        cursor_at(CirruLexState::Str, done)
    } else if c == '\n' {
        cursor_at(CirruLexState::Indent, done)
    } else if c == '(' {
        cursor_at(CirruLexState::Space, done.push(Token::Open))
    } else if c == ')' {
        cursor_at(CirruLexState::Space, done.push(Token::Close))
    } else {
        cursor_in(CirruLexState::Token, cur.buffer.push(c), cur.acc)
    }
}

/// One step inside a quoted string.
pub open spec fn step_str(cur: LexCursor, c: char) -> Result<LexCursor, KindView> {
    if c == '"' {
        Ok(cursor_at(CirruLexState::Space, cur.acc.push(Token::Str(cur.buffer))))
    } else if c == '\\' {
        Ok(cursor_in(CirruLexState::Escape, cur.buffer, cur.acc))
    } else if c == '\n' {
        Err(KindView::UnexpectedNewlineInString)
    } else {
        Ok(cursor_in(CirruLexState::Str, cur.buffer.push(c), cur.acc))
    }
}

/// The character that the escape `\c` stands for, if it is one.
pub open spec fn unescape(c: char) -> Option<char> {
    if c == '"' {
        Some('"')
    } else if c == '\'' {
        Some('\'')
    } else if c == 't' {
        Some('\t')
    } else if c == 'n' {
        Some('\n')
    } else if c == 'r' {
        Some('\r')
    } else if c == '\\' {
        Some('\\')
    } else {
        None
    }
}

/// One step after a backslash inside a string. Any character that names
/// no escape is an error, `u` among them.
pub open spec fn step_escape(cur: LexCursor, c: char) -> Result<LexCursor, KindView> {
    match unescape(c) {
        Some(d) => Ok(cursor_in(CirruLexState::Str, cur.buffer.push(d), cur.acc)),
        None => Err(KindView::InvalidEscape(c)),
    }
}

/// One step at the start of a line.
pub open spec fn step_indent(cur: LexCursor, c: char) -> Result<LexCursor, KindView> {
    if c == ' ' {
        Ok(LexCursor { width: cur.width + 1, ..cur })
    } else if c == '\n' {
        Ok(cursor_at(CirruLexState::Indent, cur.acc))
    } else if c == ')' {
        Err(KindView::UnexpectedCloseParen)
    } else {
        match indent_token(cur.width) {
            Err(k) => Err(k),
            Ok(level) => {
                let acc = cur.acc.push(level);
                if c == '"' {
                    Ok(cursor_at(CirruLexState::Str, acc))
                } else if c == '(' {
                    Ok(cursor_at(CirruLexState::Space, acc.push(Token::Open)))
                } else {
                    Ok(cursor_in(CirruLexState::Token, seq![c], acc))
                }
            },
        }
    }
}

/// The cursor after the character `c`, or the kind of error that `c` is.
pub open spec fn lex_step(cur: LexCursor, c: char) -> Result<LexCursor, KindView> {
    match cur.state {
        CirruLexState::Space => Ok(step_space(cur, c)),
        CirruLexState::Token => Ok(step_token(cur, c)),
        CirruLexState::Str => step_str(cur, c),
        CirruLexState::Escape => step_escape(cur, c),
        CirruLexState::Indent => step_indent(cur, c),
    }
}

/// The cursor after the first `n` characters of `s`, or the failure at
/// the first character among them that is an error.
pub open spec fn lex_run(s: Seq<char>, n: int) -> Result<LexCursor, LexFailure>
    decreases n,
{
    if n <= 0 {
        Ok(start_cursor())
    } else {
        match lex_run(s, n - 1) {
            Err(f) => Err(f),
            Ok(cur) => match lex_step(cur, s[n - 1]) {
                Ok(next) => Ok(next),
                Err(kind) => Err(LexFailure { kind, index: n - 1, state: cur.state }),
            },
        }
    }
}

/// What the end of the input means in each state: a token that is being
/// read is emitted, an open string or escape is an error.
pub open spec fn lex_finish(cur: LexCursor) -> Result<Seq<Token>, KindView> {
    match cur.state {
        CirruLexState::Space => Ok(cur.acc),
        CirruLexState::Indent => Ok(cur.acc),
        CirruLexState::Token => Ok(cur.acc.push(Token::Str(cur.buffer))),
        CirruLexState::Escape => Err(KindView::UnexpectedEof),
        CirruLexState::Str => Err(KindView::UnexpectedEof),
    }
}

/// The tokens of the text `s`, or the first failure.
pub open spec fn lex_spec(s: Seq<char>) -> Result<Seq<Token>, LexFailure> {
    match lex_run(s, s.len() as int) {
        Err(f) => Err(f),
        Ok(cur) => match lex_finish(cur) {
            Ok(ts) => Ok(ts),
            Err(kind) => Err(LexFailure { kind, index: s.len() - 1, state: cur.state }),
        },
    }
}

/// The number of line breaks in `s`.
pub open spec fn newlines(s: Seq<char>) -> nat
    decreases s.len(),
{
    if s.len() == 0 {
        0
    } else {
        newlines(s.drop_last()) + if s.last() == '\n' {
            1nat
        } else {
            0nat
        }
    }
}

/// The number of characters of `s` after its last line break.
pub open spec fn tail_len(s: Seq<char>) -> nat
    decreases s.len(),
{
    if s.len() == 0 {
        0
    } else if s.last() == '\n' {
        0
    } else {
        tail_len(s.drop_last()) + 1
    }
}

/// The line of the character at index `i` of `s`, counted from 1.
pub open spec fn line_at(s: Seq<char>, i: int) -> nat {
    newlines(s.take(i)) + 1
}

/// The column of the character at index `i` of `s`, counted from 1.
pub open spec fn column_at(s: Seq<char>, i: int) -> nat {
    tail_len(s.take(i)) + 1
}

/// The byte offset in UTF-8 of the character at index `i` of `s`.
pub open spec fn offset_at(s: Seq<char>, i: int) -> nat {
    encode_utf8(s.take(i)).len()
}

/// What an error says of the state in which it arose.
pub open spec fn state_info(state: CirruLexState) -> Seq<char> {
    match state {
        CirruLexState::Space => "between tokens"@,
        CirruLexState::Token => "in token"@,
        CirruLexState::Escape => "in escape sequence"@,
        CirruLexState::Indent => "at line start"@,
        CirruLexState::Str => "in string"@,
    }
}

/// Whether `e` reports the failure `f` of lexing `s`: its kind, the place
/// of the character, no snippet, and the state as context.
pub open spec fn reports(e: ErrorView, s: Seq<char>, f: LexFailure) -> bool {
    &&& e.kind == f.kind
    &&& e.context matches Some(ctx) && {
        &&& ctx.pos.line == line_at(s, f.index)
        &&& ctx.pos.column == column_at(s, f.index)
        &&& ctx.pos.offset == offset_at(s, f.index)
        &&& ctx.snippet is None
        &&& ctx.context_info == state_info(f.state)
    }
}

/// The number of bytes of `c` in UTF-8.
pub open spec fn utf8_width(c: char) -> nat {
    if (c as u32) < 0x80 {
        1
    } else if (c as u32) < 0x800 {
        2
    } else if (c as u32) < 0x10000 {
        3
    } else {
        4
    }
}

proof fn lemma_encode_concat(a: Seq<char>, b: Seq<char>)
    ensures
        encode_utf8(a + b).len() == encode_utf8(a).len() + encode_utf8(b).len(),
    decreases a.len(),
{
    if a.len() == 0 {
        assert(a + b =~= b);
    } else {
        assert((a + b).drop_first() =~= a.drop_first() + b);
        assert((a + b)[0] == a[0]);
        lemma_encode_concat(a.drop_first(), b);
    }
}

proof fn lemma_encode_one(c: char)
    ensures
        encode_utf8(seq![c]).len() == utf8_width(c),
{
    char_is_scalar(c);
    let s = seq![c];
    assert(s.drop_first() =~= Seq::<char>::empty());
    assert(encode_utf8(s.drop_first()).len() == 0);
    assert(encode_utf8(s) == encode_scalar(s[0] as u32) + encode_utf8(s.drop_first()));
}

/// The offset grows by the width of each character.
pub proof fn lemma_offset_step(s: Seq<char>, i: int)
    requires
        0 <= i < s.len(),
    ensures
        offset_at(s, i + 1) == offset_at(s, i) + utf8_width(s[i]),
        i + 1 <= offset_at(s, i + 1) <= encode_utf8(s).len(),
    decreases i,
{
    assert(s.take(i + 1) =~= s.take(i) + seq![s[i]]);
    lemma_encode_concat(s.take(i), seq![s[i]]);
    lemma_encode_one(s[i]);
    if i > 0 {
        lemma_offset_step(s, i - 1);
    } else {
        assert(s.take(0) =~= Seq::<char>::empty());
    }
    assert(s =~= s.take(i + 1) + s.skip(i + 1));
    lemma_encode_concat(s.take(i + 1), s.skip(i + 1));
}

/// The counts of lines and columns grow as the characters say.
pub proof fn lemma_place_step(s: Seq<char>, i: int)
    requires
        0 <= i < s.len(),
    ensures
        newlines(s.take(i + 1)) == newlines(s.take(i)) + if s[i] == '\n' {
            1nat
        } else {
            0nat
        },
        tail_len(s.take(i + 1)) == if s[i] == '\n' {
            0
        } else {
            tail_len(s.take(i)) + 1
        },
{
    assert(s.take(i + 1).drop_last() =~= s.take(i));
    assert(s.take(i + 1).last() == s[i]);
}

/// After a failure the scan reads no further.
pub proof fn lemma_run_stuck(s: Seq<char>, n: int, m: int)
    requires
        lex_run(s, n) is Err,
        n <= m,
    ensures
        lex_run(s, m) == lex_run(s, n),
    decreases m - n,
{
    if n < m {
        lemma_run_stuck(s, n, m - 1);
    }
}

/// The lexer between two characters.
pub struct Lexer {
    pub state: CirruLexState,
    pub buffer: String,
    pub width: usize,
    pub acc: Vec<CirruLexItem>,
}

impl View for Lexer {
    type V = LexCursor;

    open spec fn view(&self) -> LexCursor {
        LexCursor {
            state: self.state,
            buffer: self.buffer@,
            width: self.width as nat,
            acc: tokens(self.acc@),
        }
    }
}

/// The token for a line indented by `size` spaces.
pub fn parse_indentation(size: u8) -> (res: Result<CirruLexItem, CirruError>)
    ensures
        match indent_of(size) {
            Ok(t) => res matches Ok(item) && item@ == t,
            Err(k) => res matches Err(e) && e@ == (ErrorView { kind: k, context: None }),
        },
{
    if size % 2 == 0 {
        Ok(CirruLexItem::Indent(size / 2))
    } else {
        Err(CirruError::new(CirruErrorKind::InvalidIndentation(size)))
    }
}

impl Lexer {
    /// The lexer before the first character: at the start of a line.
    pub fn new() -> (res: Self)
        ensures
            res@ == start_cursor(),
    {
        let res = Lexer {
            state: CirruLexState::Indent,
            buffer: String::new(),
            width: 0,
            acc: Vec::new(),
        };
        assert(res@.acc =~= Seq::<Token>::empty());
        res
    }

    /// Emits `item`.
    fn emit(&mut self, item: CirruLexItem)
        ensures
            final(self)@ == (LexCursor { acc: old(self)@.acc.push(item@), ..old(self)@ }),
    {
        proof {
            lemma_tokens_push(self.acc@, item);
        }
        self.acc.push(item);
    }

    /// Emits the buffer as a token and empties it.
    fn emit_buffer(&mut self)
        ensures
            final(self)@ == (LexCursor {
                acc: old(self)@.acc.push(Token::Str(old(self)@.buffer)),
                buffer: Seq::empty(),
                ..old(self)@
            }),
    {
        let mut text = String::new();
        core::mem::swap(&mut self.buffer, &mut text);
        self.emit(CirruLexItem::Str(text));
    }

    /// Goes to `state` with an empty buffer.
    fn enter(&mut self, state: CirruLexState)
        ensures
            final(self)@ == cursor_at(state, old(self)@.acc),
    {
        self.state = state;
        self.buffer = String::new();
        self.width = 0;
    }

    /// Goes to the state of a bare token that starts with `c`.
    fn start_token(&mut self, c: char)
        ensures
            final(self)@ == cursor_in(CirruLexState::Token, seq![c], old(self)@.acc),
    {
        self.enter(CirruLexState::Token);
        self.buffer.push(c);
        assert(self.buffer@ =~= seq![c]);
    }

    /// Emits the indentation of the line that starts here.
    fn emit_indent(&mut self) -> (res: Result<(), CirruErrorKind>)
        requires
            old(self).state == CirruLexState::Indent,
        ensures
            match indent_token(old(self)@.width) {
                Ok(t) => res is Ok && final(self)@ == (LexCursor {
                    acc: old(self)@.acc.push(t),
                    ..old(self)@
                }),
                Err(k) => res matches Err(e) && e@ == k && *final(self) == *old(self),
            },
    {
        let size = (self.width % 256) as u8;
        if size % 2 == 0 {
            self.emit(CirruLexItem::Indent(size / 2));
            Ok(())
        } else {
            Err(CirruErrorKind::InvalidIndentation(size))
        }
    }

    /// Reads the character `c`.
    pub fn step(&mut self, c: char) -> (res: Result<(), CirruErrorKind>)
        requires
            old(self).width < usize::MAX,
        ensures
            match lex_step(old(self)@, c) {
                Ok(next) => res is Ok && final(self)@ == next,
                Err(k) => res matches Err(e) && e@ == k && final(self).state == old(self).state,
            },
    {
        match self.state {
            CirruLexState::Space => {
                if c == ' ' {
                    self.enter(CirruLexState::Space);
                } else if c == '\n' {
                    self.enter(CirruLexState::Indent);
                } else if c == '(' {
                    self.emit(CirruLexItem::Open);
                    self.enter(CirruLexState::Space);
                } else if c == ')' {
                    self.emit(CirruLexItem::Close);
                    self.enter(CirruLexState::Space);
                } else if c == '"' {
                    self.enter(CirruLexState::Str);
                } else {
                    self.start_token(c);
                }
                Ok(())
            },
            CirruLexState::Token => {
                if c == ' ' {
                    self.emit_buffer();
                    self.enter(CirruLexState::Space);
                } else if c == '"' {
                    self.emit_buffer();
                    self.enter(CirruLexState::Str);
                } else if c == '\n' {
                    self.emit_buffer();
                    self.enter(CirruLexState::Indent);
                } else if c == '(' {
                    self.emit_buffer();
                    self.emit(CirruLexItem::Open);
                    self.enter(CirruLexState::Space);
                } else if c == ')' {
                    self.emit_buffer();
                    self.emit(CirruLexItem::Close);
                    self.enter(CirruLexState::Space);
                } else {
                    self.buffer.push(c);
                    self.width = 0;
                }
                Ok(())
            },
            CirruLexState::Str => {
                if c == '"' {
                    self.emit_buffer();
                    self.enter(CirruLexState::Space);
                    Ok(())
                } else if c == '\\' {
                    self.state = CirruLexState::Escape;
                    self.width = 0;
                    Ok(())
                } else if c == '\n' {
                    Err(CirruErrorKind::UnexpectedNewlineInString)
                } else {
                    self.buffer.push(c);
                    self.width = 0;
                    Ok(())
                }
            },
            CirruLexState::Escape => {
                let d = if c == '"' {
                    '"'
                } else if c == '\'' {
                    '\''
                } else if c == 't' {
                    '\t'
                } else if c == 'n' {
                    '\n'
                } else if c == 'r' {
                    '\r'
                } else if c == '\\' {
                    '\\'
                } else {
                    return Err(CirruErrorKind::InvalidEscape(c));
                };
                self.buffer.push(d);
                self.state = CirruLexState::Str;
                self.width = 0;
                Ok(())
            },
            CirruLexState::Indent => {
                if c == ' ' {
                    self.width = self.width + 1;
                    Ok(())
                } else if c == '\n' {
                    self.enter(CirruLexState::Indent);
                    Ok(())
                } else if c == ')' {
                    Err(CirruErrorKind::UnexpectedCloseParen)
                } else {
                    match self.emit_indent() {
                        Err(k) => Err(k),
                        Ok(()) => {
                            if c == '"' {
                                self.enter(CirruLexState::Str);
                            } else if c == '(' {
                                self.emit(CirruLexItem::Open);
                                self.enter(CirruLexState::Space);
                            } else {
                                self.start_token(c);
                            }
                            Ok(())
                        },
                    }
                }
            },
        }
    }

    /// Ends the input: the tokens, or the kind of error that the end is.
    pub fn finish(self) -> (res: Result<Vec<CirruLexItem>, CirruErrorKind>)
        ensures
            match lex_finish(self@) {
                Ok(ts) => res matches Ok(v) && tokens(v@) == ts,
                Err(k) => res matches Err(e) && e@ == k,
            },
    {
        let mut this = self;
        match this.state {
            CirruLexState::Space => Ok(this.acc),
            CirruLexState::Indent => Ok(this.acc),
            CirruLexState::Token => {
                this.emit_buffer();
                Ok(this.acc)
            },
            CirruLexState::Escape => Err(CirruErrorKind::UnexpectedEof),
            CirruLexState::Str => Err(CirruErrorKind::UnexpectedEof),
        }
    }
}

/// The words that an error carries for the state in which it arose.
fn state_text(state: CirruLexState) -> (res: String)
    ensures
        res@ == state_info(state),
{
    match state {
        CirruLexState::Space => String::from_str("between tokens"),
        CirruLexState::Token => String::from_str("in token"),
        CirruLexState::Escape => String::from_str("in escape sequence"),
        CirruLexState::Indent => String::from_str("at line start"),
        CirruLexState::Str => String::from_str("in string"),
    }
}

/// The error of the given kind at the given place, which arose in `state`.
fn lex_error(kind: CirruErrorKind, pos: SourcePos, state: CirruLexState) -> (e: CirruError)
    ensures
        e@ == (ErrorView {
            kind: kind@,
            context: Some(ContextView { pos, snippet: None, context_info: state_info(state) }),
        }),
{
    CirruError::with_context(kind, ErrorContext::new(pos, None, state_text(state)))
}

/// Scans the code once, from left to right, and returns its tokens: the
/// parentheses, the indentation of each line that is not blank, and the
/// bare tokens and quoted strings. The first character that cannot stand
/// where it is ends the scan with an error that names its line, column
/// and byte offset; an input that ends inside a string is reported at its
/// last character.
pub fn lex(code: &str) -> (res: Result<Vec<CirruLexItem>, CirruError>)
    ensures
        match lex_spec(code@) {
            Ok(ts) => res matches Ok(v) && tokens(v@) == ts,
            Err(f) => res matches Err(e) && reports(e@, code@, f),
        },
{
    let total = code.as_bytes().len();
    let mut lexer = Lexer::new();
    // the place of the character that is read next, counted from 0
    let mut line: usize = 0;
    let mut column: usize = 0;
    let mut offset: usize = 0;
    // the place of the character that was read last
    let mut last = SourcePos::new(1, 1, 0);
    proof {
        assert(code@.take(0) =~= Seq::<char>::empty());
    }
    for c in it: code.chars()
        invariant
            it.seq() == code@,
            total == encode_utf8(code@).len(),
            lex_run(code@, it.index() as int) == Ok::<LexCursor, LexFailure>(lexer@),
            line == newlines(code@.take(it.index() as int)),
            column == tail_len(code@.take(it.index() as int)),
            offset == offset_at(code@, it.index() as int),
            line <= it.index(),
            column <= it.index(),
            lexer.width <= it.index(),
            it.index() <= offset <= total,
            it.index() > 0 ==> {
                &&& last.line == line_at(code@, it.index() - 1)
                &&& last.column == column_at(code@, it.index() - 1)
                &&& last.offset == offset_at(code@, it.index() - 1)
            },
    {
        proof {
            lemma_offset_step(code@, it.index() as int);
            lemma_place_step(code@, it.index() as int);
        }
        let here = SourcePos::new(line + 1, column + 1, offset);
        let state = lexer.state;
        match lexer.step(c) {
            Err(kind) => {
                proof {
                    lemma_run_stuck(code@, it.index() + 1, code@.len() as int);
                }
                return Err(lex_error(kind, here, state));
            },
            Ok(()) => {},
        }
        last = here;
        if c == '\n' {
            line = line + 1;
            column = 0;
        } else {
            column = column + 1;
        }
        offset = offset + char_width(c);
    }
    let state = lexer.state;
    match lexer.finish() {
        Ok(v) => Ok(v),
        Err(kind) => Err(lex_error(kind, last, state)),
    }
}

/// The number of bytes of `c` in UTF-8.
fn char_width(c: char) -> (n: usize)
    ensures
        n == utf8_width(c),
{
    let v = c as u32;
    if v < 0x80 {
        1
    } else if v < 0x800 {
        2
    } else if v < 0x10000 {
        3
    } else {
        4
    }
}

} // verus!
