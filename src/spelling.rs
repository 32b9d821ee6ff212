//! The tokens of a line spell the line: only whitespace is left out.
use vstd::prelude::*;
use crate::lexer::{
    Kind, LexerState, Lexeme, Scan, buffered, closed, emitted, flushed, initial, lex,
    literal_kind, popped, quote_step, run, space, start_step, step, trim, variable_char, word_char,
};

verus! {

/// The texts of the tokens, one after the other.
pub open spec fn spelling(ts: Seq<Lexeme>) -> Seq<char>
    decreases ts.len(),
{
    if ts.len() == 0 {
        seq![]
    } else {
        spelling(ts.drop_last()) + ts.last().1
    }
}

/// `b` is `a` with some whitespace characters taken out.
pub open spec fn erases_space(a: Seq<char>, b: Seq<char>) -> bool
    decreases a.len(),
{
    if a.len() == 0 {
        b.len() == 0
    } else if b.len() > 0 && a.last() == b.last() && erases_space(a.drop_last(), b.drop_last()) {
        true
    } else {
        space(a.last()) && erases_space(a.drop_last(), b)
    }
}

/// What the scan has written so far: its tokens, then the token being built.
pub open spec fn written(m: Scan) -> Seq<char> {
    spelling(m.tokens) + m.current
}

proof fn lemma_spelling_push(ts: Seq<Lexeme>, t: Lexeme)
    ensures
        spelling(ts.push(t)) == spelling(ts) + t.1,
{
    assert(ts.push(t).drop_last() =~= ts);
}

proof fn lemma_keep(a: Seq<char>, b: Seq<char>, c: char)
    requires
        erases_space(a, b),
    ensures
        erases_space(a.push(c), b.push(c)),
{
    assert(a.push(c).drop_last() =~= a);
    assert(b.push(c).drop_last() =~= b);
}

proof fn lemma_skip(a: Seq<char>, b: Seq<char>, c: char)
    requires
        erases_space(a, b),
        space(c),
    ensures
        erases_space(a.push(c), b),
{
    assert(a.push(c).drop_last() =~= a);
}

proof fn lemma_buffered(m: Scan, s: LexerState, c: char)
    ensures
        written(buffered(m, s, c)) == written(m).push(c),
{
    assert(written(buffered(m, s, c)) =~= written(m).push(c));
}

proof fn lemma_emitted(m: Scan, s: LexerState, k: Kind, c: char)
    requires
        m.current.len() == 0,
    ensures
        written(emitted(m, s, k, seq![c])) == written(m).push(c),
        emitted(m, s, k, seq![c]).current.len() == 0,
{
    lemma_spelling_push(m.tokens, (k, seq![c]));
    assert(written(emitted(m, s, k, seq![c])) =~= written(m).push(c));
}

proof fn lemma_flushed(m: Scan, k: Kind)
    ensures
        written(flushed(m, k)) == written(m),
        flushed(m, k).current.len() == 0,
{
    lemma_spelling_push(m.tokens, (k, m.current));
    assert(written(flushed(m, k)) =~= written(m));
}

proof fn lemma_popped(m: Scan)
    ensures
        written(popped(m)) == written(m),
        popped(m).current == m.current,
{
}

/// The state that reads `c` when the scan is in `m`: a token that `c` ends is
/// emitted first, and a substitution that `c` ends returns to its context.
pub open spec fn reader(m: Scan, c: char) -> LexerState {
    match m.state {
        LexerState::InLiteral => if c == '*' || word_char(c) {
            LexerState::InLiteral
        } else {
            LexerState::Start
        },
        LexerState::InWildcard => if c == '*' || word_char(c) {
            LexerState::InWildcard
        } else {
            LexerState::Start
        },
        LexerState::InOperator(d) => if c == d {
            m.state
        } else {
            LexerState::Start
        },
        LexerState::InSubstitution => if variable_char(c) || (c == '(' && m.current.len() == 0) {
            LexerState::InSubstitution
        } else {
            popped(m).state
        },
        _ => m.state,
    }
}

/// Whether the lexer leaves `c` out when it reads it in `m`: whitespace read in
/// plain command text, and the newline that ends a comment. Whitespace inside
/// a quote or a comment is kept.
pub open spec fn left_out(m: Scan, c: char) -> bool {
    space(c) && (reader(m, c) == LexerState::Start || (reader(m, c) == LexerState::InComment && c
        == '\n'))
}

/// The characters of `s` that its tokens keep, in order.
pub open spec fn kept(s: Seq<char>) -> Seq<char>
    decreases s.len(),
{
    if s.len() == 0 {
        seq![]
    } else if left_out(run(s.drop_last()), s.last()) {
        kept(s.drop_last())
    } else {
        kept(s.drop_last()).push(s.last())
    }
}

proof fn lemma_start_step(m: Scan, c: char)
    requires
        m.current.len() == 0,
    ensures
        written(start_step(m, c)) == if space(c) {
            written(m)
        } else {
            written(m).push(c)
        },
        start_step(m, c).state == LexerState::Start ==> start_step(m, c).current.len() == 0,
{
    let n = start_step(m, c);
    if space(c) {
    } else if c == '\'' || c == '"' || c == '|' || c == '=' || c == ';' {
        lemma_emitted(m, n.state, Kind::Symbol, c);
    } else if c == '$' || c == '(' {
        lemma_emitted(m, n.state, Kind::Symbol, c);
    } else if c == ')' {
        lemma_emitted(m, LexerState::Start, Kind::Symbol, c);
        lemma_popped(emitted(m, LexerState::Start, Kind::Symbol, seq![c]));
    } else {
        lemma_buffered(m, n.state, c);
    }
}

proof fn lemma_quote_step(m: Scan, q: char, c: char)
    ensures
        written(quote_step(m, q, c)) == written(m).push(c),
        quote_step(m, q, c).state == LexerState::Start ==> quote_step(m, q, c).current.len() == 0,
{
    let f = flushed(m, Kind::Str);
    lemma_flushed(m, Kind::Str);
    if c == '$' {
        lemma_emitted(f, LexerState::InSubstitution, Kind::Symbol, c);
    } else if c == q {
        lemma_emitted(f, LexerState::Start, Kind::Symbol, c);
    } else {
        lemma_buffered(m, LexerState::InQuote(q), c);
    }
}

proof fn lemma_step(m: Scan, c: char)
    requires
        m.state == LexerState::Start ==> m.current.len() == 0,
    ensures
        written(step(m, c)) == if left_out(m, c) {
            written(m)
        } else {
            written(m).push(c)
        },
        step(m, c).state == LexerState::Start ==> step(m, c).current.len() == 0,
{
    match m.state {
        LexerState::Start => lemma_start_step(m, c),
        LexerState::InQuote(q) => lemma_quote_step(m, q, c),
        LexerState::InLiteral => {
            if c == '*' || word_char(c) {
                lemma_buffered(m, step(m, c).state, c);
            } else {
                let f = flushed(m, literal_kind(m.current));
                lemma_flushed(m, literal_kind(m.current));
                lemma_start_step(f, c);
            }
        },
        LexerState::InWildcard => {
            if word_char(c) || c == '*' {
                lemma_buffered(m, LexerState::InWildcard, c);
            } else {
                lemma_flushed(m, Kind::Wildcard);
                lemma_start_step(flushed(m, Kind::Wildcard), c);
            }
        },
        LexerState::InOperator(d) => {
            if c == d {
                lemma_buffered(m, m.state, c);
                lemma_flushed(buffered(m, m.state, c), Kind::Symbol);
            } else {
                lemma_flushed(m, Kind::Symbol);
                lemma_start_step(flushed(m, Kind::Symbol), c);
            }
        },
        LexerState::InSubstitution => {
            if variable_char(c) {
                lemma_buffered(m, LexerState::InSubstitution, c);
            } else if c == '(' && m.current.len() == 0 {
                lemma_emitted(m, LexerState::Start, Kind::Symbol, c);
            } else {
                let i = flushed(m, Kind::Identifier);
                lemma_flushed(m, Kind::Identifier);
                lemma_popped(i);
                let p = popped(i);
                assert(p.state == popped(m).state);
                match p.state {
                    LexerState::InQuote(q) => lemma_quote_step(p, q, c),
                    _ => lemma_start_step(p, c),
                }
            }
        },
        LexerState::InComment => {
            if c == '\n' {
                lemma_flushed(m, Kind::Comment);
            } else {
                lemma_buffered(m, LexerState::InComment, c);
            }
        },
    }
}

proof fn lemma_run(s: Seq<char>)
    ensures
        written(run(s)) == kept(s),
        run(s).state == LexerState::Start ==> run(s).current.len() == 0,
    decreases s.len(),
{
    if s.len() == 0 {
        assert(written(initial()) =~= Seq::<char>::empty());
    } else {
        lemma_run(s.drop_last());
        lemma_step(run(s.drop_last()), s.last());
    }
}

proof fn lemma_kept_erases(s: Seq<char>)
    ensures
        erases_space(s, kept(s)),
    decreases s.len(),
{
    if s.len() > 0 {
        let p = s.drop_last();
        lemma_kept_erases(p);
        assert(p.push(s.last()) =~= s);
        if left_out(run(p), s.last()) {
            lemma_skip(p, kept(p), s.last());
        } else {
            lemma_keep(p, kept(p), s.last());
        }
    }
}

proof fn lemma_closed(m: Scan)
    requires
        m.state == LexerState::Start ==> m.current.len() == 0,
        !(m.state is InQuote),
    ensures
        spelling(closed(m).tokens) == written(m),
{
    match m.state {
        LexerState::InLiteral => lemma_flushed(m, literal_kind(m.current)),
        LexerState::InWildcard => lemma_flushed(m, Kind::Wildcard),
        LexerState::InOperator(_) => lemma_flushed(m, Kind::Symbol),
        LexerState::InComment => lemma_flushed(m, Kind::Comment),
        LexerState::InSubstitution => {
            if m.current.len() > 0 {
                lemma_flushed(m, Kind::Identifier);
            } else {
                assert(written(m) =~= spelling(m.tokens));
            }
        },
        _ => {
            assert(written(m) =~= spelling(m.tokens));
        },
    }
}

/// Every line that the lexer accepts is spelled by its tokens: their texts,
/// one after the other, are the trimmed line without the whitespace read in
/// plain command text and the newlines that end comments. Whitespace inside
/// quotes and comments is kept, and nothing else is left out.
pub proof fn lemma_tokens_spell_line(line: Seq<char>)
    requires
        lex(line) is Ok,
    ensures
        spelling(lex(line)->Ok_0) == kept(trim(line)),
        erases_space(trim(line), spelling(lex(line)->Ok_0)),
{
    let s = trim(line);
    lemma_run(s);
    lemma_closed(run(s));
    lemma_kept_erases(s);
}

} // verus!
