//! A token's text, read again on its own, gives back the same token.
use vstd::prelude::*;
use crate::lexer::{
    Kind, LexError, LexerState, Lexeme, Scan, buffered, closed, emitted, flushed,
    identified, initial, lex, literal_kind, popped, quote_step, run, space, start_step, step, trim,
    trim_end, trim_start, variable_char, word_char,
};

verus! {

/// A character that opens a literal word in plain command text.
pub open spec fn starts_word(c: char) -> bool {
    !space(c) && c != '\'' && c != '"' && c != '<' && c != '>' && c != '|' && c != '=' && c != ';'
        && c != '#' && c != '$' && c != '(' && c != ')' && c != '*'
}

/// The text of a literal word.
pub open spec fn literal_text(t: Seq<char>) -> bool {
    &&& t.len() > 0
    &&& starts_word(t[0])
    &&& forall|i: int| 1 <= i < t.len() ==> word_char(#[trigger] t[i]) && t[i] != '*'
}

/// The text of a word that may hold `*`.
pub open spec fn glob_text(t: Seq<char>) -> bool {
    &&& t.len() > 0
    &&& starts_word(t[0]) || t[0] == '*'
    &&& forall|i: int| 1 <= i < t.len() ==> word_char(#[trigger] t[i]) || t[i] == '*'
}

/// The text holds a `*`.
pub open spec fn has_star(t: Seq<char>) -> bool {
    exists|i: int| 0 <= i < t.len() && t[i] == '*'
}

/// The text of a comment.
pub open spec fn comment_text(t: Seq<char>) -> bool {
    &&& t.len() > 0
    &&& t[0] == '#'
    &&& forall|i: int| 0 <= i < t.len() ==> #[trigger] t[i] != '\n'
}

pub open spec fn quote_char(c: char) -> bool {
    c == '\'' || c == '"'
}

pub open spec fn redirect_char(c: char) -> bool {
    c == '<' || c == '>'
}

/// The text of a symbol.
pub open spec fn symbol_text(t: Seq<char>) -> bool {
    ||| t.len() == 1 && (quote_char(t[0]) || redirect_char(t[0]) || t[0] == '|' || t[0] == '='
        || t[0] == ';' || t[0] == '$' || t[0] == '(' || t[0] == ')')
    ||| t.len() == 2 && redirect_char(t[0]) && t[1] == t[0]
}

/// The text of a token fits its kind.
pub open spec fn shaped(x: Lexeme) -> bool {
    match x.0 {
        Kind::Literal | Kind::ControlOperator => literal_text(x.1) && literal_kind(x.1) == x.0,
        Kind::Wildcard => glob_text(x.1) && has_star(x.1),
        Kind::Comment => comment_text(x.1),
        Kind::Symbol => symbol_text(x.1),
        Kind::Identifier | Kind::Str => true,
    }
}

/// What holds of every state of a scan: its tokens fit their kinds, and the
/// token being built fits the state.
pub open spec fn sound(m: Scan) -> bool {
    &&& forall|i: int| 0 <= i < m.tokens.len() ==> shaped(#[trigger] m.tokens[i])
    &&& forall|i: int|
        0 <= i < m.stack.len() ==> quote_char(#[trigger] m.stack[i])
    &&& match m.state {
        LexerState::Start => m.current.len() == 0,
        LexerState::InLiteral => literal_text(m.current),
        LexerState::InWildcard => glob_text(m.current) && has_star(m.current),
        LexerState::InOperator(d) => redirect_char(d) && m.current == seq![d],
        LexerState::InComment => comment_text(m.current),
        LexerState::InQuote(q) => quote_char(q),
        LexerState::InSubstitution => true,
    }
}

proof fn lemma_tokens_push(m: Scan, x: Lexeme)
    requires
        forall|i: int| 0 <= i < m.tokens.len() ==> shaped(#[trigger] m.tokens[i]),
        shaped(x),
    ensures
        forall|i: int| 0 <= i < m.tokens.push(x).len() ==> shaped(#[trigger] m.tokens.push(x)[i]),
{
    assert forall|i: int| 0 <= i < m.tokens.push(x).len() implies shaped(
        #[trigger] m.tokens.push(x)[i],
    ) by {
        if i < m.tokens.len() {
            assert(m.tokens.push(x)[i] == m.tokens[i]);
        }
    }
}

proof fn lemma_start_sound(m: Scan, c: char)
    requires
        sound(m),
        m.current.len() == 0,
    ensures
        sound(start_step(m, c)),
{
    let x = (Kind::Symbol, seq![c]);
    if space(c) {
    } else if quote_char(c) || c == '|' || c == '=' || c == ';' || c == '$' || c == '(' || c
        == ')' {
        lemma_tokens_push(m, x);
        let e = emitted(m, LexerState::Start, Kind::Symbol, seq![c]);
        if c == ')' && e.stack.len() > 0 {
            assert forall|i: int| 0 <= i < e.stack.drop_last().len() implies quote_char(#[trigger] e.stack.drop_last()[i]) by {
                assert(e.stack.drop_last()[i] == e.stack[i]);
            }
        }
    } else {
        assert(m.current.push(c) =~= seq![c]);
        if c == '*' {
            assert(seq![c][0] == '*');
        }
    }
}

proof fn lemma_quote_sound(m: Scan, q: char, c: char)
    requires
        sound(m),
        quote_char(q),
    ensures
        sound(quote_step(m, q, c)),
{
    if c == '$' || c == q {
        let f = flushed(m, Kind::Str);
        lemma_tokens_push(m, (Kind::Str, m.current));
        lemma_tokens_push(f, (Kind::Symbol, seq![c]));
        if c == '$' {
            let s = m.stack.push(q);
            assert forall|i: int| 0 <= i < s.len() implies quote_char(#[trigger] s[i]) by {
                if i < m.stack.len() {
                    assert(s[i] == m.stack[i]);
                }
            }
        }
    }
}

proof fn lemma_popped_sound(m: Scan)
    requires
        forall|i: int| 0 <= i < m.tokens.len() ==> shaped(#[trigger] m.tokens[i]),
        forall|i: int|
            0 <= i < m.stack.len() ==> quote_char(#[trigger] m.stack[i]),
        m.current.len() == 0,
    ensures
        sound(popped(m)),
{
    if m.stack.len() > 0 {
        let s = m.stack.drop_last();
        assert(m.stack.last() == m.stack[m.stack.len() - 1]);
        assert forall|i: int| 0 <= i < s.len() implies quote_char(#[trigger] s[i]) by {
            assert(s[i] == m.stack[i]);
        }
    }
}

proof fn lemma_flushed_sound(m: Scan, k: Kind)
    requires
        forall|i: int| 0 <= i < m.tokens.len() ==> shaped(#[trigger] m.tokens[i]),
        forall|i: int|
            0 <= i < m.stack.len() ==> quote_char(#[trigger] m.stack[i]),
        shaped((k, m.current)),
    ensures
        sound(flushed(m, k)),
{
    lemma_tokens_push(m, (k, m.current));
}

proof fn lemma_step_sound(m: Scan, c: char)
    requires
        sound(m),
    ensures
        sound(step(m, c)),
{
    match m.state {
        LexerState::Start => lemma_start_sound(m, c),
        LexerState::InQuote(q) => lemma_quote_sound(m, q, c),
        LexerState::InLiteral => {
            let t = m.current.push(c);
            if c == '*' {
                assert(t[t.len() - 1] == '*');
                assert forall|i: int| 1 <= i < t.len() implies word_char(#[trigger] t[i]) || t[i]
                    == '*' by {
                    if i < m.current.len() {
                        assert(t[i] == m.current[i]);
                    }
                }
            } else if word_char(c) {
                assert forall|i: int| 1 <= i < t.len() implies word_char(#[trigger] t[i]) && t[i]
                    != '*' by {
                    if i < m.current.len() {
                        assert(t[i] == m.current[i]);
                    }
                }
            } else {
                lemma_flushed_sound(m, literal_kind(m.current));
                lemma_start_sound(flushed(m, literal_kind(m.current)), c);
            }
        },
        LexerState::InWildcard => {
            let t = m.current.push(c);
            if word_char(c) || c == '*' {
                let w = choose|i: int| 0 <= i < m.current.len() && m.current[i] == '*';
                assert(t[w] == '*');
                assert forall|i: int| 1 <= i < t.len() implies word_char(#[trigger] t[i]) || t[i]
                    == '*' by {
                    if i < m.current.len() {
                        assert(t[i] == m.current[i]);
                    }
                }
            } else {
                lemma_flushed_sound(m, Kind::Wildcard);
                lemma_start_sound(flushed(m, Kind::Wildcard), c);
            }
        },
        LexerState::InOperator(d) => {
            if c == d {
                let b = buffered(m, m.state, c);
                assert(b.current =~= seq![d, d]);
                lemma_flushed_sound(b, Kind::Symbol);
            } else {
                lemma_flushed_sound(m, Kind::Symbol);
                lemma_start_sound(flushed(m, Kind::Symbol), c);
            }
        },
        LexerState::InSubstitution => {
            if variable_char(c) {
            } else if c == '(' && m.current.len() == 0 {
                lemma_tokens_push(m, (Kind::Symbol, seq![c]));
            } else {
                let i = flushed(m, Kind::Identifier);
                lemma_tokens_push(m, (Kind::Identifier, m.current));
                lemma_popped_sound(i);
                let p = popped(i);
                match p.state {
                    LexerState::InQuote(q) => lemma_quote_sound(p, q, c),
                    _ => lemma_start_sound(p, c),
                }
            }
        },
        LexerState::InComment => {
            if c == '\n' {
                lemma_flushed_sound(m, Kind::Comment);
            } else {
                let t = m.current.push(c);
                assert forall|i: int| 0 <= i < t.len() implies #[trigger] t[i] != '\n' by {
                    if i < m.current.len() {
                        assert(t[i] == m.current[i]);
                    }
                }
            }
        },
    }
}

proof fn lemma_run_sound(s: Seq<char>)
    ensures
        sound(run(s)),
    decreases s.len(),
{
    if s.len() > 0 {
        lemma_run_sound(s.drop_last());
        lemma_step_sound(run(s.drop_last()), s.last());
    }
}

proof fn lemma_closed_shaped(m: Scan)
    requires
        sound(m),
    ensures
        forall|i: int| 0 <= i < closed(m).tokens.len() ==> shaped(#[trigger] closed(m).tokens[i]),
{
    match m.state {
        LexerState::InLiteral => lemma_tokens_push(m, (literal_kind(m.current), m.current)),
        LexerState::InWildcard => lemma_tokens_push(m, (Kind::Wildcard, m.current)),
        LexerState::InOperator(_) => lemma_tokens_push(m, (Kind::Symbol, m.current)),
        LexerState::InComment => lemma_tokens_push(m, (Kind::Comment, m.current)),
        LexerState::InSubstitution => {
            if m.current.len() > 0 {
                lemma_tokens_push(m, (Kind::Identifier, m.current));
            }
        },
        _ => {},
    }
}

/// A text whose ends are not whitespace is its own trim.
proof fn lemma_trim_keeps(t: Seq<char>)
    requires
        t.len() > 0,
        !space(t[0]),
        !space(t.last()),
    ensures
        trim(t) == t,
{
    assert(trim_start(t) == t);
    assert(trim_end(t) == t);
}

/// The scan of the first `k` characters of a word.
proof fn lemma_run_word(t: Seq<char>, k: int)
    requires
        glob_text(t),
        1 <= k <= t.len(),
    ensures
        run(t.subrange(0, k)) == (Scan {
            state: if has_star(t.subrange(0, k)) {
                LexerState::InWildcard
            } else {
                LexerState::InLiteral
            },
            stack: seq![],
            current: t.subrange(0, k),
            tokens: seq![],
        }),
    decreases k,
{
    let s = t.subrange(0, k);
    if k == 1 {
        assert(s.drop_last() =~= Seq::<char>::empty());
        assert(run(Seq::<char>::empty()) == initial());
        assert(s.last() == t[0]);
        assert(initial().current.push(t[0]) =~= s);
        if t[0] == '*' {
            assert(s[0] == '*');
        } else {
            assert(!has_star(s)) by {
                assert forall|i: int| 0 <= i < s.len() implies s[i] != '*' by {
                    assert(s[i] == t[0]);
                }
            }
        }
    } else {
        lemma_run_word(t, k - 1);
        let p = t.subrange(0, k - 1);
        assert(s.drop_last() =~= p);
        assert(p.push(t[k - 1]) =~= s);
        if has_star(p) {
            let w = choose|i: int| 0 <= i < p.len() && p[i] == '*';
            assert(s[w] == '*');
        } else if t[k - 1] == '*' {
            assert(s[k - 1] == '*');
        } else {
            assert(!has_star(s)) by {
                assert forall|i: int| 0 <= i < s.len() implies s[i] != '*' by {
                    if i < k - 1 {
                        assert(s[i] == p[i]);
                    }
                }
            }
        }
    }
}

/// The scan of the first `k` characters of a comment.
proof fn lemma_run_comment(t: Seq<char>, k: int)
    requires
        comment_text(t),
        1 <= k <= t.len(),
    ensures
        run(t.subrange(0, k)) == (Scan {
            state: LexerState::InComment,
            stack: seq![],
            current: t.subrange(0, k),
            tokens: seq![],
        }),
    decreases k,
{
    let s = t.subrange(0, k);
    if k == 1 {
        assert(s.drop_last() =~= Seq::<char>::empty());
        assert(run(Seq::<char>::empty()) == initial());
        assert(s.last() == t[0]);
        assert(initial().current.push(t[0]) =~= s);
    } else {
        lemma_run_comment(t, k - 1);
        assert(t[k - 1] != '\n');
        assert(s.drop_last() =~= t.subrange(0, k - 1));
        assert(t.subrange(0, k - 1).push(t[k - 1]) =~= s);
    }
}

proof fn lemma_lex_one(c: char)
    ensures
        run(seq![c]) == step(initial(), c),
{
    assert(seq![c].drop_last() =~= Seq::<char>::empty());
    assert(run(Seq::<char>::empty()) == initial());
    assert(seq![c].last() == c);
}

proof fn lemma_lex_two(c: char)
    ensures
        run(seq![c, c]) == step(step(initial(), c), c),
{
    assert(seq![c, c].drop_last() =~= seq![c]);
    lemma_lex_one(c);
}

/// Read on its own, the text of a token of the right shape gives back that
/// one token, whenever it can be read at all.
proof fn lemma_shaped_relexes(x: Lexeme)
    requires
        shaped(x),
        x.0 != Kind::Identifier,
        x.0 != Kind::Str,
        x.0 == Kind::Comment ==> !space(x.1.last()),
        lex(x.1) is Ok,
    ensures
        lex(x.1) == Ok::<Seq<Lexeme>, LexError>(seq![x]),
{
    let t = x.1;
    match x.0 {
        Kind::Literal | Kind::ControlOperator | Kind::Wildcard => {
            assert(!space(t.last())) by {
                if t.len() > 1 {
                    assert(t.last() == t[t.len() - 1]);
                }
            }
            lemma_trim_keeps(t);
            lemma_run_word(t, t.len() as int);
            assert(t.subrange(0, t.len() as int) =~= t);
            if x.0 == Kind::Wildcard {
            } else {
                assert(!has_star(t)) by {
                    assert forall|i: int| 0 <= i < t.len() implies t[i] != '*' by {
                        if i > 0 {
                            assert(word_char(t[i]) && t[i] != '*');
                        }
                    }
                }
            }
            assert(closed(run(t)).tokens =~= seq![x]);
        },
        Kind::Comment => {
            lemma_trim_keeps(t);
            lemma_run_comment(t, t.len() as int);
            assert(t.subrange(0, t.len() as int) =~= t);
            assert(closed(run(t)).tokens =~= seq![x]);
        },
        _ => {
            if t.len() == 1 {
                let c = t[0];
                assert(t =~= seq![c]);
                lemma_trim_keeps(t);
                lemma_lex_one(c);
                if redirect_char(c) {
                    assert(initial().current.push(c) =~= seq![c]);
                }
                assert(closed(run(t)).tokens =~= seq![x]);
            } else {
                let c = t[0];
                assert(t =~= seq![c, c]);
                lemma_trim_keeps(t);
                lemma_lex_two(c);
                assert(initial().current.push(c).push(c) =~= seq![c, c]);
                assert(closed(run(t)).tokens =~= seq![x]);
            }
        },
    }
}

/// Each token that the lexer emits, but for names after `$`, quoted text and
/// comments that end in whitespace, is read back as exactly the same single
/// token when its text alone is tokenized and can be.
pub proof fn lemma_token_relexes(line: Seq<char>, i: int)
    requires
        lex(line) is Ok,
        0 <= i < lex(line)->Ok_0.len(),
        lex(line)->Ok_0[i].0 != Kind::Identifier,
        lex(line)->Ok_0[i].0 != Kind::Str,
        lex(line)->Ok_0[i].0 == Kind::Comment ==> !space(lex(line)->Ok_0[i].1.last()),
        lex(lex(line)->Ok_0[i].1) is Ok,
    ensures
        lex(lex(line)->Ok_0[i].1) == Ok::<Seq<Lexeme>, LexError>(
            seq![lex(line)->Ok_0[i]],
        ),
{
    let m = run(trim(line));
    lemma_run_sound(trim(line));
    lemma_closed_shaped(m);
    lemma_shaped_relexes(lex(line)->Ok_0[i]);
}

} // verus!
