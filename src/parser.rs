//! The grammar that the parser follows:
//!
//! ```text
//! pipeline     ::= command { "|" command }
//! command      ::= (literal | substitution) { arg }
//! arg          ::= literal | wildcard | quote | substitution
//! quote        ::= quote-open string { "$" substitution-rest string } quote-close
//! substitution ::= "$" (identifier | subshell)
//! subshell     ::= "(" pipeline ")"
//! ```
use vstd::prelude::*;
use crate::lexer::{Kind, Lexeme, Token, lexemes, string_of};

verus! {

/// The mathematical value of a command tree.
pub enum Node {
    Pipe(Box<Node>, Box<Node>),
    Command { name: Box<Node>, args: Seq<Node> },
    Quote(char, Seq<Node>),
    Subshell(Box<Node>),
    Literal(Seq<char>),
    Identifier(Seq<char>),
    String(Seq<char>),
}

/// A command tree.
#[derive(Debug, PartialEq, Eq)]
pub enum Tree {
    /// The output of the left side feeds the input of the right side.
    Pipe(Box<Tree>, Box<Tree>),
    /// A command name with its arguments, in order.
    Command { name: Box<Tree>, args: Vec<Tree> },
    /// A quote with substitutions inside: its fragments in order.
    Quote(char, Vec<Tree>),
    /// A pipeline whose output is the value of a substitution.
    Subshell(Box<Tree>),
    Literal(String),
    Identifier(String),
    /// Quoted text; a quote without substitutions keeps its delimiters.
    String(String),
}

impl Tree {
    /// The value of the tree.
    pub open spec fn node(&self) -> Node
        decreases self,
    {
        match self {
            Tree::Pipe(l, r) => Node::Pipe(Box::new(l.node()), Box::new(r.node())),
            Tree::Command { name, args } => Node::Command {
                name: Box::new(name.node()),
                args: Seq::new(
                    args.len() as nat,
                    |i: int|
                        if 0 <= i < args.len() {
                            args[i].node()
                        } else {
                            Node::Literal(seq![])
                        },
                ),
            },
            Tree::Quote(q, parts) => Node::Quote(
                *q,
                Seq::new(
                    parts.len() as nat,
                    |i: int|
                        if 0 <= i < parts.len() {
                            parts[i].node()
                        } else {
                            Node::Literal(seq![])
                        },
                ),
            ),
            Tree::Subshell(p) => Node::Subshell(Box::new(p.node())),
            Tree::Literal(s) => Node::Literal(s@),
            Tree::Identifier(s) => Node::Identifier(s@),
            Tree::String(s) => Node::String(s@),
        }
    }
}

/// The values of a sequence of trees.
pub open spec fn nodes(v: Seq<Tree>) -> Seq<Node> {
    v.map_values(|t: Tree| t.node())
}

proof fn lemma_nodes_push(v: Seq<Tree>, t: Tree)
    ensures
        nodes(v.push(t)) == nodes(v).push(t.node()),
{
    assert(nodes(v.push(t)) =~= nodes(v).push(t.node()));
}

pub(crate) proof fn lemma_command_node(name: Box<Tree>, args: Vec<Tree>)
    ensures
        (Tree::Command { name, args }).node() == (Node::Command {
            name: Box::new(name.node()),
            args: nodes(args@),
        }),
{
    let t = Tree::Command { name, args };
    if let Node::Command { args: a, .. } = t.node() {
        assert(a =~= nodes(args@));
    }
}

pub(crate) proof fn lemma_quote_node(q: char, parts: Vec<Tree>)
    ensures
        (Tree::Quote(q, parts)).node() == Node::Quote(q, nodes(parts@)),
{
    let t = Tree::Quote(q, parts);
    if let Node::Quote(_, a) = t.node() {
        assert(a =~= nodes(parts@));
    }
}

/// Why a token sequence is not a pipeline.
#[derive(Clone, Copy, Debug, PartialEq, Eq, Structural)]
pub enum ParseError {
    /// The tokens end where one more was needed.
    UnexpectedEndOfInput,
    /// A command starts with a token that is neither a literal nor `$`.
    InvalidCommandHead,
    /// A `$` is followed by neither a name nor `(`.
    InvalidSubstitution,
    /// A `(` has no matching `)`, or a `)` has no matching `(`.
    UnbalancedParenthesis,
    /// A quote is not closed.
    UnbalancedQuote,
    /// A quote holds something other than text and substitutions.
    InvalidQuoteContents,
    /// Tokens are left after a complete pipeline.
    UnexpectedToken,
}

/// A parsed piece and the position of the first token after it.
pub type Parsed = Result<(Node, int), ParseError>;

/// The token is the one-character symbol `c`.
pub open spec fn sym(t: Lexeme, c: char) -> bool {
    t.0 == Kind::Symbol && t.1 == seq![c]
}

/// The token can stand as a plain argument.
pub open spec fn word(t: Lexeme) -> bool {
    t.0 == Kind::Literal || t.0 == Kind::Wildcard
}

/// `i < j <= ts.len()`: a sub-parse consumed tokens and stayed in bounds.
pub open spec fn advanced(ts: Seq<Lexeme>, i: int, j: int) -> bool {
    i < j <= ts.len()
}

/// A pipeline that starts at `i`.
pub open spec fn pipeline(ts: Seq<Lexeme>, i: int) -> Parsed
    decreases ts.len() - i, 1nat,
{
    match command(ts, i) {
        Err(e) => Err(e),
        Ok((c, j)) => if advanced(ts, i, j) {
            pipe_rest(ts, j, c)
        } else {
            Err(ParseError::UnexpectedEndOfInput)
        },
    }
}

/// The rest of a pipeline at `j`, after the commands already folded into `acc`.
pub open spec fn pipe_rest(ts: Seq<Lexeme>, j: int, acc: Node) -> Parsed
    decreases ts.len() - j, 0nat,
{
    if 0 <= j < ts.len() && sym(ts[j], '|') {
        match command(ts, j + 1) {
            Err(e) => Err(e),
            Ok((c, k)) => if advanced(ts, j, k) {
                pipe_rest(ts, k, Node::Pipe(Box::new(acc), Box::new(c)))
            } else {
                Err(ParseError::UnexpectedEndOfInput)
            },
        }
    } else {
        Ok((acc, j))
    }
}

/// A command that starts at `i`.
pub open spec fn command(ts: Seq<Lexeme>, i: int) -> Parsed
    decreases ts.len() - i, 0nat,
{
    if i < 0 || i >= ts.len() {
        Err(ParseError::UnexpectedEndOfInput)
    } else if ts[i].0 == Kind::Literal {
        arguments(ts, i + 1, Node::Literal(ts[i].1), seq![])
    } else if sym(ts[i], '$') {
        match substitution(ts, i + 1) {
            Err(e) => Err(e),
            Ok((n, j)) => if advanced(ts, i, j) {
                arguments(ts, j, n, seq![])
            } else {
                Err(ParseError::UnexpectedEndOfInput)
            },
        }
    } else {
        Err(ParseError::InvalidCommandHead)
    }
}

/// The arguments of the command `name` from `j` on, after those in `acc`.
pub open spec fn arguments(ts: Seq<Lexeme>, j: int, name: Node, acc: Seq<Node>) -> Parsed
    decreases ts.len() - j, 0nat,
{
    if 0 <= j < ts.len() && word(ts[j]) {
        arguments(ts, j + 1, name, acc.push(Node::Literal(ts[j].1)))
    } else if 0 <= j < ts.len() && (sym(ts[j], '$') || sym(ts[j], '"') || sym(ts[j], '\'')) {
        let sub = if sym(ts[j], '$') {
            substitution(ts, j + 1)
        } else {
            quote(ts, j + 1, ts[j].1[0], seq![])
        };
        match sub {
            Err(e) => Err(e),
            Ok((n, k)) => if advanced(ts, j, k) {
                arguments(ts, k, name, acc.push(n))
            } else {
                Err(ParseError::UnexpectedEndOfInput)
            },
        }
    } else {
        Ok((Node::Command { name: Box::new(name), args: acc }, j))
    }
}

/// What follows a `$` at `i`: a name or a subshell.
pub open spec fn substitution(ts: Seq<Lexeme>, i: int) -> Parsed
    decreases ts.len() - i, 0nat,
{
    if i < 0 || i >= ts.len() {
        Err(ParseError::UnexpectedEndOfInput)
    } else if ts[i].0 == Kind::Identifier {
        Ok((Node::Identifier(ts[i].1), i + 1))
    } else if sym(ts[i], '(') {
        match pipeline(ts, i + 1) {
            Err(e) => Err(e),
            Ok((p, k)) => if 0 <= k < ts.len() && sym(ts[k], ')') {
                Ok((Node::Subshell(Box::new(p)), k + 1))
            } else {
                Err(ParseError::UnbalancedParenthesis)
            },
        }
    } else {
        Err(ParseError::InvalidSubstitution)
    }
}

/// The inside of a quote opened with `q`, from `i` on, after the fragments in `acc`.
pub open spec fn quote(ts: Seq<Lexeme>, i: int, q: char, acc: Seq<Node>) -> Parsed
    decreases ts.len() - i, 0nat,
{
    if i < 0 || i + 1 >= ts.len() || ts[i].0 != Kind::Str {
        Err(ParseError::UnbalancedQuote)
    } else if sym(ts[i + 1], q) {
        if acc.len() == 0 {
            Ok((Node::String(seq![q] + ts[i].1 + seq![q]), i + 2))
        } else {
            Ok((Node::Quote(q, acc.push(Node::String(ts[i].1))), i + 2))
        }
    } else if sym(ts[i + 1], '$') {
        match substitution(ts, i + 2) {
            Err(e) => Err(e),
            Ok((n, k)) => if advanced(ts, i, k) {
                quote(ts, k, q, acc.push(Node::String(ts[i].1)).push(n))
            } else {
                Err(ParseError::UnexpectedEndOfInput)
            },
        }
    } else {
        Err(ParseError::InvalidQuoteContents)
    }
}

/// The tree of a whole token sequence, or why there is none.
pub open spec fn parse_lexemes(ts: Seq<Lexeme>) -> Result<Node, ParseError> {
    match pipeline(ts, 0) {
        Err(e) => Err(e),
        Ok((t, k)) => if k >= ts.len() {
            Ok(t)
        } else if sym(ts[k], ')') {
            Err(ParseError::UnbalancedParenthesis)
        } else {
            Err(ParseError::UnexpectedToken)
        },
    }
}

/// `r` is the executable form of the parse result `s`, and consumed tokens from `i`.
pub open spec fn agrees(r: Result<(Tree, usize), ParseError>, s: Parsed, i: int, n: int) -> bool {
    match r {
        Ok((t, k)) => s == Ok::<(Node, int), ParseError>((t.node(), k as int)) && i < k <= n,
        Err(e) => s == Err::<(Node, int), ParseError>(e),
    }
}

/// Whether the token is the one-character symbol `c`.
fn is_symbol(t: &Token, c: char) -> (r: bool)
    ensures
        r == sym(t@, c),
{
    if t.kind() != Kind::Symbol {
        return false;
    }
    let s = t.inner().as_str();
    if s.unicode_len() != 1 {
        return false;
    }
    let r = s.get_char(0) == c;
    assert(r == (s@ == seq![c])) by {
        if s@[0] == c {
            assert(s@ =~= seq![c]);
        }
    }
    r
}

/// Parses a pipeline at `i`: commands folded to the left over `|`.
fn parse_pipe(ts: &Vec<Token>, i: usize) -> (r: Result<(Tree, usize), ParseError>)
    requires
        i <= ts.len(),
    ensures
        agrees(r, pipeline(lexemes(ts@), i as int), i as int, ts.len() as int),
    decreases ts.len() - i, 1nat,
{
    let ghost v = lexemes(ts@);
    let (mut acc, mut j) = match parse_command(ts, i) {
        Ok(x) => x,
        Err(e) => return Err(e),
    };
    while j < ts.len() && is_symbol(&ts[j], '|')
        invariant
            v == lexemes(ts@),
            i < j <= ts.len(),
            pipeline(v, i as int) == pipe_rest(v, j as int, acc.node()),
        decreases ts.len() - j,
    {
        let (c, k) = match parse_command(ts, j + 1) {
            Ok(x) => x,
            Err(e) => return Err(e),
        };
        acc = Tree::Pipe(Box::new(acc), Box::new(c));
        j = k;
    }
    Ok((acc, j))
}

/// Parses a command at `i`: its name, then its arguments up to the first
/// token that cannot start one.
fn parse_command(ts: &Vec<Token>, i: usize) -> (r: Result<(Tree, usize), ParseError>)
    requires
        i <= ts.len(),
    ensures
        agrees(r, command(lexemes(ts@), i as int), i as int, ts.len() as int),
    decreases ts.len() - i, 0nat,
{
    let ghost v = lexemes(ts@);
    if i >= ts.len() {
        return Err(ParseError::UnexpectedEndOfInput);
    }
    let (name, j) = if ts[i].kind() == Kind::Literal {
        (Tree::Literal(ts[i].inner().clone()), i + 1)
    } else if is_symbol(&ts[i], '$') {
        match parse_substitute(ts, i + 1) {
            Ok(x) => x,
            Err(e) => return Err(e),
        }
    } else {
        return Err(ParseError::InvalidCommandHead);
    };
    let mut args: Vec<Tree> = Vec::new();
    let mut j = j;
    assert(nodes(args@) =~= Seq::<Node>::empty());
    loop
        invariant
            v == lexemes(ts@),
            i < j <= ts.len(),
            command(v, i as int) == arguments(v, j as int, name.node(), nodes(args@)),
        decreases ts.len() - j,
    {
        if j < ts.len() && (ts[j].kind() == Kind::Literal || ts[j].kind() == Kind::Wildcard) {
            let arg = Tree::Literal(ts[j].inner().clone());
            proof {
                lemma_nodes_push(args@, arg);
            }
            args.push(arg);
            j = j + 1;
        } else if j < ts.len() && is_symbol(&ts[j], '$') {
            let (n, k) = match parse_substitute(ts, j + 1) {
                Ok(x) => x,
                Err(e) => return Err(e),
            };
            proof {
                lemma_nodes_push(args@, n);
            }
            args.push(n);
            j = k;
        } else if j < ts.len() && (is_symbol(&ts[j], '"') || is_symbol(&ts[j], '\'')) {
            let q = if is_symbol(&ts[j], '"') {
                '"'
            } else {
                '\''
            };
            let (n, k) = match parse_quote(ts, j + 1, q) {
                Ok(x) => x,
                Err(e) => return Err(e),
            };
            proof {
                lemma_nodes_push(args@, n);
            }
            args.push(n);
            j = k;
        } else {
            let name = Box::new(name);
            proof {
                lemma_command_node(name, args);
            }
            return Ok((Tree::Command { name, args }, j));
        }
    }
}

/// Parses what follows a `$` at `i`: a name, or a subshell up to its `)`.
fn parse_substitute(ts: &Vec<Token>, i: usize) -> (r: Result<(Tree, usize), ParseError>)
    requires
        i <= ts.len(),
    ensures
        agrees(r, substitution(lexemes(ts@), i as int), i as int, ts.len() as int),
    decreases ts.len() - i, 0nat,
{
    if i >= ts.len() {
        return Err(ParseError::UnexpectedEndOfInput);
    }
    if ts[i].kind() == Kind::Identifier {
        Ok((Tree::Identifier(ts[i].inner().clone()), i + 1))
    } else if is_symbol(&ts[i], '(') {
        let (p, k) = match parse_pipe(ts, i + 1) {
            Ok(x) => x,
            Err(e) => return Err(e),
        };
        if k < ts.len() && is_symbol(&ts[k], ')') {
            Ok((Tree::Subshell(Box::new(p)), k + 1))
        } else {
            Err(ParseError::UnbalancedParenthesis)
        }
    } else {
        Err(ParseError::InvalidSubstitution)
    }
}

/// The text of a quote without substitutions, delimiters included.
fn quoted(q: char, s: &String) -> (r: String)
    ensures
        r@ == seq![q] + s@ + seq![q],
{
    let mut v: Vec<char> = Vec::new();
    v.push(q);
    let n = s.as_str().unicode_len();
    let mut i: usize = 0;
    while i < n
        invariant
            n == s@.len(),
            i <= n,
            v@ == seq![q] + s@.subrange(0, i as int),
        decreases n - i,
    {
        v.push(s.as_str().get_char(i));
        assert(s@.subrange(0, i as int + 1) =~= s@.subrange(0, i as int).push(s@[i as int]));
        assert(v@ =~= seq![q] + s@.subrange(0, i as int + 1));
        i = i + 1;
    }
    v.push(q);
    assert(s@.subrange(0, n as int) =~= s@);
    assert(v@ =~= seq![q] + s@ + seq![q]);
    string_of(&v)
}

/// Parses the inside of a quote opened with `q`, from `i` up to the closing `q`.
fn parse_quote(ts: &Vec<Token>, i: usize, q: char) -> (r: Result<(Tree, usize), ParseError>)
    requires
        i <= ts.len(),
    ensures
        agrees(r, quote(lexemes(ts@), i as int, q, seq![]), i as int, ts.len() as int),
    decreases ts.len() - i, 0nat,
{
    let ghost v = lexemes(ts@);
    let mut parts: Vec<Tree> = Vec::new();
    let mut j = i;
    assert(nodes(parts@) =~= Seq::<Node>::empty());
    loop
        invariant
            v == lexemes(ts@),
            i <= j <= ts.len(),
            quote(v, i as int, q, seq![]) == quote(v, j as int, q, nodes(parts@)),
        decreases ts.len() - j,
    {
        if j >= ts.len() || j + 1 >= ts.len() || ts[j].kind() != Kind::Str {
            return Err(ParseError::UnbalancedQuote);
        }
        let text = ts[j].inner().clone();
        if is_symbol(&ts[j + 1], q) {
            if parts.len() == 0 {
                return Ok((Tree::String(quoted(q, &text)), j + 2));
            } else {
                let last = Tree::String(text);
                proof {
                    lemma_nodes_push(parts@, last);
                }
                parts.push(last);
                proof {
                    lemma_quote_node(q, parts);
                }
                return Ok((Tree::Quote(q, parts), j + 2));
            }
        } else if is_symbol(&ts[j + 1], '$') {
            let (n, k) = match parse_substitute(ts, j + 2) {
                Ok(x) => x,
                Err(e) => return Err(e),
            };
            let fragment = Tree::String(text);
            proof {
                lemma_nodes_push(parts@, fragment);
                lemma_nodes_push(parts@.push(fragment), n);
            }
            parts.push(fragment);
            parts.push(n);
            j = k;
        } else {
            return Err(ParseError::InvalidQuoteContents);
        }
    }
}

/// Builds the command tree of a token sequence.
pub fn parse(tokens: &Vec<Token>) -> (r: Result<Tree, ParseError>)
    ensures
        match r {
            Ok(t) => parse_lexemes(lexemes(tokens@)) == Ok::<Node, ParseError>(t.node()),
            Err(e) => parse_lexemes(lexemes(tokens@)) == Err::<Node, ParseError>(e),
        },
{
    let (t, k) = match parse_pipe(tokens, 0) {
        Ok(x) => x,
        Err(e) => return Err(e),
    };
    if k >= tokens.len() {
        Ok(t)
    } else if is_symbol(&tokens[k], ')') {
        Err(ParseError::UnbalancedParenthesis)
    } else {
        Err(ParseError::UnexpectedToken)
    }
}

/// What can be parsed into a command tree.
pub trait Parse {
    /// The token values to parse.
    spec fn lexemes(&self) -> Seq<Lexeme>;

    fn parse(self) -> (r: Result<Tree, ParseError>)
        ensures
            match r {
                Ok(t) => parse_lexemes(self.lexemes()) == Ok::<Node, ParseError>(t.node()),
                Err(e) => parse_lexemes(self.lexemes()) == Err::<Node, ParseError>(e),
            },
    ;
}

impl Parse for Vec<Token> {
    open spec fn lexemes(&self) -> Seq<Lexeme> {
        lexemes(self@)
    }

    fn parse(self) -> (r: Result<Tree, ParseError>) {
        parse(&self)
    }
}

} // verus!
