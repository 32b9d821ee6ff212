//! The lexer: a state machine that reads a line one character at a time and
//! splits it into tokens. `step` states what one character does; `lex` is the
//! whole run over the trimmed line, and `tokenize` is proved to compute it.
use vstd::prelude::*;

verus! {

/// The kind of a token, apart from the text it carries.
#[derive(Clone, Copy, Debug, PartialEq, Eq, Structural)]
pub enum Kind {
    Literal,
    Symbol,
    ControlOperator,
    Identifier,
    Wildcard,
    Str,
    Comment,
}

/// A token: its kind and the exact text of the line that it covers.
#[derive(Clone, Debug, PartialEq, Eq)]
pub enum Token {
    Literal(String),
    Symbol(String),
    ControlOperator(String),
    Identifier(String),
    Wildcard(String),
    Str(String),
    Comment(String),
}

/// The mathematical value of a token.
pub type Lexeme = (Kind, Seq<char>);

impl View for Token {
    type V = Lexeme;

    open spec fn view(&self) -> Lexeme {
        match self {
            Token::Literal(s) => (Kind::Literal, s@),
            Token::Symbol(s) => (Kind::Symbol, s@),
            Token::ControlOperator(s) => (Kind::ControlOperator, s@),
            Token::Identifier(s) => (Kind::Identifier, s@),
            Token::Wildcard(s) => (Kind::Wildcard, s@),
            Token::Str(s) => (Kind::Str, s@),
            Token::Comment(s) => (Kind::Comment, s@),
        }
    }
}

/// The values of a sequence of tokens.
pub open spec fn lexemes(ts: Seq<Token>) -> Seq<Lexeme> {
    ts.map_values(|t: Token| t@)
}

impl Token {
    /// Builds the token of the given kind around `text`.
    pub fn of(kind: Kind, text: String) -> (t: Token)
        ensures
            t@ == (kind, text@),
    {
        match kind {
            Kind::Literal => Token::Literal(text),
            Kind::Symbol => Token::Symbol(text),
            Kind::ControlOperator => Token::ControlOperator(text),
            Kind::Identifier => Token::Identifier(text),
            Kind::Wildcard => Token::Wildcard(text),
            Kind::Str => Token::Str(text),
            Kind::Comment => Token::Comment(text),
        }
    }

    pub fn kind(&self) -> (k: Kind)
        ensures
            k == self@.0,
    {
        match self {
            Token::Literal(_) => Kind::Literal,
            Token::Symbol(_) => Kind::Symbol,
            Token::ControlOperator(_) => Kind::ControlOperator,
            Token::Identifier(_) => Kind::Identifier,
            Token::Wildcard(_) => Kind::Wildcard,
            Token::Str(_) => Kind::Str,
            Token::Comment(_) => Kind::Comment,
        }
    }

    /// The text that the token carries.
    pub fn inner(&self) -> (s: &String)
        ensures
            s@ == self@.1,
    {
        match self {
            Token::Literal(s)
            | Token::Symbol(s)
            | Token::ControlOperator(s)
            | Token::Identifier(s)
            | Token::Wildcard(s)
            | Token::Str(s)
            | Token::Comment(s) => s,
        }
    }

    /// The text that the token carries, for writing; the kind stays.
    pub fn inner_mut(&mut self) -> (s: &mut String)
        ensures
            s@ == old(self)@.1,
            final(self)@ == (old(self)@.0, final(s)@),
    {
        match self {
            Token::Literal(s) => s,
            Token::Symbol(s) => s,
            Token::ControlOperator(s) => s,
            Token::Identifier(s) => s,
            Token::Wildcard(s) => s,
            Token::Str(s) => s,
            Token::Comment(s) => s,
        }
    }

    /// A token of the same kind that owns a copy of the text.
    pub fn inner_to_string(&mut self) -> (t: Token)
        ensures
            t@ == old(self)@,
            *final(self) == *old(self),
    {
        match self {
            Token::Literal(s) => Token::Literal(s.clone()),
            Token::Symbol(s) => Token::Symbol(s.clone()),
            Token::ControlOperator(s) => Token::ControlOperator(s.clone()),
            Token::Identifier(s) => Token::Identifier(s.clone()),
            Token::Wildcard(s) => Token::Wildcard(s.clone()),
            Token::Str(s) => Token::Str(s.clone()),
            Token::Comment(s) => Token::Comment(s.clone()),
        }
    }
}

/// Why a line cannot be split into tokens.
#[derive(Clone, Copy, Debug, PartialEq, Eq, Structural)]
pub enum LexError {
    /// The line ends inside a quote.
    UnterminatedQuote,
    /// The line ends while a substitution inside a quote is still open.
    DanglingContext,
}

// ---------------------------------------------------------------------------
// Character classes

/// The characters with the Unicode White_Space property.
pub open spec fn space(c: char) -> bool {
    let n = c as u32;
    (0x09 <= n && n <= 0x0d) || n == 0x20 || n == 0x85 || n == 0xa0 || n == 0x1680 || (0x2000
        <= n && n <= 0x200a) || n == 0x2028 || n == 0x2029 || n == 0x202f || n == 0x205f || n
        == 0x3000
}

pub fn is_space(c: char) -> (r: bool)
    ensures
        r == space(c),
{
    let n = c as u32;
    (0x09 <= n && n <= 0x0d) || n == 0x20 || n == 0x85 || n == 0xa0 || n == 0x1680 || (0x2000
        <= n && n <= 0x200a) || n == 0x2028 || n == 0x2029 || n == 0x202f || n == 0x205f || n
        == 0x3000
}

/// Whether a character is alphabetic or numeric in the Unicode sense.
pub uninterp spec fn alphanumeric(c: char) -> bool;

/// Relies on `char::is_alphanumeric`: whether the character has the Unicode
/// Alphabetic or Numeric property, which depends on the character alone.
#[verifier::external_body]
fn is_alphanumeric(c: char) -> (r: bool)
    ensures
        r == alphanumeric(c),
{
    c.is_alphanumeric()
}

/// A character that continues a literal word: a path, a flag or a name.
pub open spec fn word_char(c: char) -> bool {
    !space(c) && (alphanumeric(c) || c == '_' || c == '~' || c == '/' || c == '.' || c == '-')
}

fn is_word_char(c: char) -> (r: bool)
    ensures
        r == word_char(c),
{
    !is_space(c) && (is_alphanumeric(c) || c == '_' || c == '~' || c == '/' || c == '.' || c
        == '-')
}

/// A character of a substitution's name.
pub open spec fn variable_char(c: char) -> bool {
    alphanumeric(c) || c == '_' || c == '{' || c == '}'
}

fn is_variable_char(c: char) -> (r: bool)
    ensures
        r == variable_char(c),
{
    is_alphanumeric(c) || c == '_' || c == '{' || c == '}'
}

/// The reserved words of control flow.
pub open spec fn reserved(t: Seq<char>) -> bool {
    t == seq!['i', 'f'] || t == seq!['t', 'h', 'e', 'n'] || t == seq!['e', 'l', 's', 'e'] || t
        == seq!['f', 'i']
}

fn is_reserved(t: &Vec<char>) -> (r: bool)
    ensures
        r == reserved(t@),
{
    let n = t.len();
    if n == 2 {
        let r = (t[0] == 'i' && t[1] == 'f') || (t[0] == 'f' && t[1] == 'i');
        assert(r == reserved(t@)) by {
            assert((t@[0] == 'i' && t@[1] == 'f') ==> t@ =~= seq!['i', 'f']);
            assert((t@[0] == 'f' && t@[1] == 'i') ==> t@ =~= seq!['f', 'i']);
        }
        r
    } else if n == 4 {
        let r = (t[0] == 't' && t[1] == 'h' && t[2] == 'e' && t[3] == 'n') || (t[0] == 'e' && t[1]
            == 'l' && t[2] == 's' && t[3] == 'e');
        assert(r == reserved(t@)) by {
            assert((t@[0] == 't' && t@[1] == 'h' && t@[2] == 'e' && t@[3] == 'n') ==> t@ =~= seq![
                't',
                'h',
                'e',
                'n',
            ]);
            assert((t@[0] == 'e' && t@[1] == 'l' && t@[2] == 's' && t@[3] == 'e') ==> t@ =~= seq![
                'e',
                'l',
                's',
                'e',
            ]);
        }
        r
    } else {
        false
    }
}

/// The kind of a finished literal word: a reserved word is a control operator.
pub open spec fn literal_kind(t: Seq<char>) -> Kind {
    if reserved(t) {
        Kind::ControlOperator
    } else {
        Kind::Literal
    }
}

// ---------------------------------------------------------------------------
// Conversions between text and characters

/// The characters of the string, in order.
pub(crate) fn chars_of(s: &str) -> (r: Vec<char>)
    ensures
        r@ == s@,
{
    let n = s.unicode_len();
    let mut r: Vec<char> = Vec::new();
    let mut i: usize = 0;
    while i < n
        invariant
            n == s@.len(),
            i <= n,
            r@ == s@.subrange(0, i as int),
        decreases n - i,
    {
        r.push(s.get_char(i));
        assert(s@.subrange(0, i as int + 1) =~= s@.subrange(0, i as int).push(s@[i as int]));
        i = i + 1;
    }
    assert(s@.subrange(0, n as int) =~= s@);
    r
}

/// Relies on `String`'s `FromIterator<&char>`: the string of these characters, in order.
#[verifier::external_body]
pub(crate) fn string_of(v: &Vec<char>) -> (r: String)
    ensures
        r@ == v@,
{
    v.iter().collect()
}

// ---------------------------------------------------------------------------
// Trimming

/// The line without its leading whitespace.
pub open spec fn trim_start(s: Seq<char>) -> Seq<char>
    decreases s.len(),
{
    if s.len() > 0 && space(s[0]) {
        trim_start(s.drop_first())
    } else {
        s
    }
}

/// The line without its trailing whitespace.
pub open spec fn trim_end(s: Seq<char>) -> Seq<char>
    decreases s.len(),
{
    if s.len() > 0 && space(s.last()) {
        trim_end(s.drop_last())
    } else {
        s
    }
}

/// The line without leading and trailing whitespace.
pub open spec fn trim(s: Seq<char>) -> Seq<char> {
    trim_end(trim_start(s))
}

/// The bounds of the trimmed line.
fn trim_bounds(s: &Vec<char>) -> (r: (usize, usize))
    ensures
        r.0 <= r.1 <= s.len(),
        trim(s@) == s@.subrange(r.0 as int, r.1 as int),
{
    let n = s.len();
    let mut lo: usize = 0;
    assert(s@.subrange(0, n as int) =~= s@);
    while lo < n && is_space(s[lo])
        invariant
            lo <= n == s.len(),
            trim_start(s@) == trim_start(s@.subrange(lo as int, n as int)),
        decreases n - lo,
    {
        assert(s@.subrange(lo as int, n as int).drop_first() =~= s@.subrange(
            lo as int + 1,
            n as int,
        ));
        lo = lo + 1;
    }
    let mut hi: usize = n;
    while hi > lo && is_space(s[hi - 1])
        invariant
            lo <= hi <= n == s.len(),
            trim(s@) == trim_end(s@.subrange(lo as int, hi as int)),
        decreases hi,
    {
        assert(s@.subrange(lo as int, hi as int).drop_last() =~= s@.subrange(
            lo as int,
            hi as int - 1,
        ));
        hi = hi - 1;
    }
    (lo, hi)
}

// ---------------------------------------------------------------------------
// The lexer as a state machine

/// What the lexer is in the middle of.
#[derive(Clone, Copy, Debug, PartialEq, Eq, Structural)]
pub enum LexerState {
    Start,
    InLiteral,
    InQuote(char),
    InSubstitution,
    InWildcard,
    InOperator(char),
    InComment,
}

/// The lexer's whole state: where it is, the quotes that a substitution
/// interrupted (by their opening characters, innermost last), the text of the
/// token being built and the tokens emitted so far.
pub struct Scan {
    pub state: LexerState,
    pub stack: Seq<char>,
    pub current: Seq<char>,
    pub tokens: Seq<Lexeme>,
}

pub open spec fn initial() -> Scan {
    Scan { state: LexerState::Start, stack: seq![], current: seq![], tokens: seq![] }
}

/// Adds `c` to the token being built.
pub open spec fn buffered(m: Scan, state: LexerState, c: char) -> Scan {
    Scan { state, current: m.current.push(c), ..m }
}

/// Emits a token with the given text; the token being built stays.
pub open spec fn emitted(m: Scan, state: LexerState, kind: Kind, text: Seq<char>) -> Scan {
    Scan { state, tokens: m.tokens.push((kind, text)), ..m }
}

/// Emits the token being built, with the given kind, and goes back to `Start`.
pub open spec fn flushed(m: Scan, kind: Kind) -> Scan {
    Scan {
        state: LexerState::Start,
        current: seq![],
        tokens: m.tokens.push((kind, m.current)),
        ..m
    }
}

/// Returns to the innermost interrupted quote, or to `Start` when none is saved.
pub open spec fn popped(m: Scan) -> Scan {
    if m.stack.len() == 0 {
        Scan { state: LexerState::Start, ..m }
    } else {
        Scan { state: LexerState::InQuote(m.stack.last()), stack: m.stack.drop_last(), ..m }
    }
}

/// At the end of the line: emits the name of a substitution, if it has one.
pub open spec fn identified(m: Scan) -> Scan {
    if m.current.len() == 0 {
        m
    } else {
        flushed(m, Kind::Identifier)
    }
}

/// One character read in plain command text.
pub open spec fn start_step(m: Scan, c: char) -> Scan {
    if space(c) {
        Scan { state: LexerState::Start, ..m }
    } else if c == '\'' || c == '"' {
        emitted(m, LexerState::InQuote(c), Kind::Symbol, seq![c])
    } else if c == '<' || c == '>' {
        buffered(m, LexerState::InOperator(c), c)
    } else if c == '|' || c == '=' || c == ';' {
        emitted(m, LexerState::Start, Kind::Symbol, seq![c])
    } else if c == '#' {
        buffered(m, LexerState::InComment, c)
    } else if c == '$' {
        emitted(m, LexerState::InSubstitution, Kind::Symbol, seq![c])
    } else if c == '(' {
        emitted(m, LexerState::Start, Kind::Symbol, seq![c])
    } else if c == ')' {
        popped(emitted(m, LexerState::Start, Kind::Symbol, seq![c]))
    } else if c == '*' {
        buffered(m, LexerState::InWildcard, c)
    } else {
        buffered(m, LexerState::InLiteral, c)
    }
}

/// One character read inside a quote opened with `q`.
pub open spec fn quote_step(m: Scan, q: char, c: char) -> Scan {
    if c == '$' {
        let e = emitted(flushed(m, Kind::Str), LexerState::InSubstitution, Kind::Symbol, seq![c]);
        Scan { stack: m.stack.push(q), ..e }
    } else if c == q {
        emitted(flushed(m, Kind::Str), LexerState::Start, Kind::Symbol, seq![c])
    } else {
        buffered(m, LexerState::InQuote(q), c)
    }
}

/// One character read in a context that a substitution returned to.
pub open spec fn resumed_step(m: Scan, c: char) -> Scan {
    match m.state {
        LexerState::InQuote(q) => quote_step(m, q, c),
        _ => start_step(m, c),
    }
}

/// One character read in any state.
pub open spec fn step(m: Scan, c: char) -> Scan {
    match m.state {
        LexerState::Start => start_step(m, c),
        LexerState::InQuote(q) => quote_step(m, q, c),
        LexerState::InLiteral => {
            if c == '*' {
                buffered(m, LexerState::InWildcard, c)
            } else if word_char(c) {
                buffered(m, LexerState::InLiteral, c)
            } else {
                start_step(flushed(m, literal_kind(m.current)), c)
            }
        },
        LexerState::InWildcard => {
            if word_char(c) || c == '*' {
                buffered(m, LexerState::InWildcard, c)
            } else {
                start_step(flushed(m, Kind::Wildcard), c)
            }
        },
        LexerState::InOperator(d) => {
            if c == d {
                flushed(buffered(m, m.state, c), Kind::Symbol)
            } else {
                start_step(flushed(m, Kind::Symbol), c)
            }
        },
        LexerState::InSubstitution => {
            if variable_char(c) {
                buffered(m, LexerState::InSubstitution, c)
            } else if c == '(' && m.current.len() == 0 {
                emitted(m, LexerState::Start, Kind::Symbol, seq![c])
            } else {
                resumed_step(popped(flushed(m, Kind::Identifier)), c)
            }
        },
        LexerState::InComment => {
            if c == '\n' {
                flushed(m, Kind::Comment)
            } else {
                buffered(m, LexerState::InComment, c)
            }
        },
    }
}

/// The state after reading all of `s`.
pub open spec fn run(s: Seq<char>) -> Scan
    decreases s.len(),
{
    if s.len() == 0 {
        initial()
    } else {
        step(run(s.drop_last()), s.last())
    }
}

/// The end of the line: the token being built is emitted.
pub open spec fn closed(m: Scan) -> Scan {
    match m.state {
        LexerState::InLiteral => flushed(m, literal_kind(m.current)),
        LexerState::InWildcard => flushed(m, Kind::Wildcard),
        LexerState::InOperator(_) => flushed(m, Kind::Symbol),
        LexerState::InComment => flushed(m, Kind::Comment),
        LexerState::InSubstitution => identified(m),
        _ => m,
    }
}

/// The tokens of a whole scan, or why there are none.
pub open spec fn finished(m: Scan) -> Result<Seq<Lexeme>, LexError> {
    let e = closed(m);
    if e.state is InQuote {
        Err(LexError::UnterminatedQuote)
    } else if e.stack.len() > 0 {
        Err(LexError::DanglingContext)
    } else {
        Ok(e.tokens)
    }
}

/// The tokens of a line.
pub open spec fn lex(s: Seq<char>) -> Result<Seq<Lexeme>, LexError> {
    finished(run(trim(s)))
}

/// `r` is what the lexer gives for the line `s`.
pub open spec fn lexed(s: Seq<char>, r: Result<Vec<Token>, LexError>) -> bool {
    match r {
        Ok(v) => lex(s) == Ok::<Seq<Lexeme>, LexError>(lexemes(v@)),
        Err(e) => lex(s) == Err::<Seq<Lexeme>, LexError>(e),
    }
}

// ---------------------------------------------------------------------------
// The lexer

struct Lexer {
    state: LexerState,
    stack: Vec<char>,
    current: Vec<char>,
    tokens: Vec<Token>,
}

impl View for Lexer {
    type V = Scan;

    closed spec fn view(&self) -> Scan {
        Scan {
            state: self.state,
            stack: self.stack@,
            current: self.current@,
            tokens: lexemes(self.tokens@),
        }
    }
}

impl Lexer {
    fn new() -> (r: Lexer)
        ensures
            r@ == initial(),
    {
        let r = Lexer { state: LexerState::Start, stack: Vec::new(), current: Vec::new(), tokens: Vec::new() };
        assert(r@.tokens =~= Seq::<Lexeme>::empty());
        r
    }

    fn buffer(&mut self, state: LexerState, c: char)
        ensures
            final(self)@ == buffered(old(self)@, state, c),
    {
        self.current.push(c);
        self.state = state;
    }

    fn push_token(&mut self, t: Token)
        ensures
            final(self).tokens@ == old(self).tokens@.push(t),
            lexemes(final(self).tokens@) == lexemes(old(self).tokens@).push(t@),
            final(self).state == old(self).state,
            final(self).stack == old(self).stack,
            final(self).current == old(self).current,
    {
        self.tokens.push(t);
        assert(lexemes(self.tokens@) =~= lexemes(old(self).tokens@).push(t@));
    }

    fn emit(&mut self, state: LexerState, kind: Kind, c: char)
        ensures
            final(self)@ == emitted(old(self)@, state, kind, seq![c]),
    {
        let mut v: Vec<char> = Vec::new();
        v.push(c);
        assert(v@ =~= seq![c]);
        self.push_token(Token::of(kind, string_of(&v)));
        self.state = state;
    }

    fn flush(&mut self, kind: Kind)
        ensures
            final(self)@ == flushed(old(self)@, kind),
    {
        let text = string_of(&self.current);
        self.current = Vec::new();
        self.push_token(Token::of(kind, text));
        self.state = LexerState::Start;
        assert(self.current@ =~= Seq::<char>::empty());
    }

    fn pop(&mut self)
        ensures
            final(self)@ == popped(old(self)@),
    {
        match self.stack.pop() {
            Some(q) => self.state = LexerState::InQuote(q),
            None => self.state = LexerState::Start,
        }
    }

    fn identify(&mut self)
        ensures
            final(self)@ == identified(old(self)@),
    {
        if self.current.len() > 0 {
            self.flush(Kind::Identifier);
        }
    }

    fn tokenize_start(&mut self, ch: char)
        ensures
            final(self)@ == start_step(old(self)@, ch),
    {
        if is_space(ch) {
            self.state = LexerState::Start;
        } else if ch == '\'' || ch == '"' {
            self.emit(LexerState::InQuote(ch), Kind::Symbol, ch);
        } else if ch == '<' || ch == '>' {
            self.buffer(LexerState::InOperator(ch), ch);
        } else if ch == '|' || ch == '=' || ch == ';' {
            self.emit(LexerState::Start, Kind::Symbol, ch);
        } else if ch == '#' {
            self.buffer(LexerState::InComment, ch);
        } else if ch == '$' {
            self.emit(LexerState::InSubstitution, Kind::Symbol, ch);
        } else if ch == '(' {
            self.emit(LexerState::Start, Kind::Symbol, ch);
        } else if ch == ')' {
            self.emit(LexerState::Start, Kind::Symbol, ch);
            self.pop();
        } else if ch == '*' {
            self.buffer(LexerState::InWildcard, ch);
        } else {
            self.buffer(LexerState::InLiteral, ch);
        }
    }

    fn tokenize_quote(&mut self, q: char, ch: char)
        ensures
            final(self)@ == quote_step(old(self)@, q, ch),
    {
        if ch == '$' {
            self.flush(Kind::Str);
            self.emit(LexerState::InSubstitution, Kind::Symbol, ch);
            self.stack.push(q);
        } else if ch == q {
            self.flush(Kind::Str);
            self.emit(LexerState::Start, Kind::Symbol, ch);
        } else {
            self.buffer(LexerState::InQuote(q), ch);
        }
    }

    fn tokenize_char(&mut self, ch: char)
        ensures
            final(self)@ == step(old(self)@, ch),
    {
        match self.state {
            LexerState::Start => self.tokenize_start(ch),
            LexerState::InQuote(q) => self.tokenize_quote(q, ch),
            LexerState::InLiteral => {
                if ch == '*' {
                    self.buffer(LexerState::InWildcard, ch);
                } else if is_word_char(ch) {
                    self.buffer(LexerState::InLiteral, ch);
                } else {
                    let kind = if is_reserved(&self.current) {
                        Kind::ControlOperator
                    } else {
                        Kind::Literal
                    };
                    self.flush(kind);
                    self.tokenize_start(ch);
                }
            },
            LexerState::InWildcard => {
                if is_word_char(ch) || ch == '*' {
                    self.buffer(LexerState::InWildcard, ch);
                } else {
                    self.flush(Kind::Wildcard);
                    self.tokenize_start(ch);
                }
            },
            LexerState::InOperator(d) => {
                if ch == d {
                    self.buffer(LexerState::InOperator(d), ch);
                    self.flush(Kind::Symbol);
                } else {
                    self.flush(Kind::Symbol);
                    self.tokenize_start(ch);
                }
            },
            LexerState::InSubstitution => {
                if is_variable_char(ch) {
                    self.buffer(LexerState::InSubstitution, ch);
                } else if ch == '(' && self.current.len() == 0 {
                    self.emit(LexerState::Start, Kind::Symbol, ch);
                } else {
                    self.flush(Kind::Identifier);
                    self.pop();
                    match self.state {
                        LexerState::InQuote(q) => self.tokenize_quote(q, ch),
                        _ => self.tokenize_start(ch),
                    }
                }
            },
            LexerState::InComment => {
                if ch == '\n' {
                    self.flush(Kind::Comment);
                } else {
                    self.buffer(LexerState::InComment, ch);
                }
            },
        }
    }

    /// Ends the line and hands out the tokens.
    fn finish(self) -> (r: Result<Vec<Token>, LexError>)
        ensures
            match r {
                Ok(v) => finished(self@) == Ok::<Seq<Lexeme>, LexError>(lexemes(v@)),
                Err(e) => finished(self@) == Err::<Seq<Lexeme>, LexError>(e),
            },
    {
        let mut lx = self;
        match lx.state {
            LexerState::InLiteral => {
                let kind = if is_reserved(&lx.current) {
                    Kind::ControlOperator
                } else {
                    Kind::Literal
                };
                lx.flush(kind);
            },
            LexerState::InWildcard => lx.flush(Kind::Wildcard),
            LexerState::InOperator(_) => lx.flush(Kind::Symbol),
            LexerState::InComment => lx.flush(Kind::Comment),
            LexerState::InSubstitution => lx.identify(),
            _ => {},
        }
        assert(lx@ == closed(self@));
        if let LexerState::InQuote(_) = lx.state {
            Err(LexError::UnterminatedQuote)
        } else if lx.stack.len() > 0 {
            Err(LexError::DanglingContext)
        } else {
            Ok(lx.tokens)
        }
    }
}

/// Splits a line into tokens. Whitespace outside quotes separates tokens and is
/// dropped; leading and trailing whitespace is ignored.
pub fn tokenize(line: &str) -> (r: Result<Vec<Token>, LexError>)
    ensures
        lexed(line@, r),
{
    let chars = chars_of(line);
    let (lo, hi) = trim_bounds(&chars);
    let mut lx = Lexer::new();
    let mut i: usize = lo;
    assert(chars@.subrange(lo as int, lo as int) =~= Seq::<char>::empty());
    while i < hi
        invariant
            lo <= i <= hi <= chars.len(),
            lx@ == run(chars@.subrange(lo as int, i as int)),
        decreases hi - i,
    {
        lx.tokenize_char(chars[i]);
        assert(chars@.subrange(lo as int, i as int + 1).drop_last() =~= chars@.subrange(
            lo as int,
            i as int,
        ));
        i = i + 1;
    }
    lx.finish()
}

/// What can be split into tokens.
pub trait Tokenize {
    /// The characters of the line.
    spec fn line(&self) -> Seq<char>;

    fn tokenize(self) -> (r: Result<Vec<Token>, LexError>)
        ensures
            lexed(self.line(), r),
    ;
}

impl Tokenize for &str {
    open spec fn line(&self) -> Seq<char> {
        (*self)@
    }

    fn tokenize(self) -> (r: Result<Vec<Token>, LexError>) {
        tokenize(self)
    }
}

impl Tokenize for String {
    open spec fn line(&self) -> Seq<char> {
        self@
    }

    fn tokenize(self) -> (r: Result<Vec<Token>, LexError>) {
        tokenize(self.as_str())
    }
}

} // verus!
