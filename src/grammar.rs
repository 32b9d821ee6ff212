//! Laws of the parser: how pipes group and what a quote becomes.
use vstd::prelude::*;
use crate::lexer::{Kind, Lexeme};
use crate::parser::{
    Node, ParseError, arguments, command, parse_lexemes, pipe_rest, pipeline, quote, substitution,
    sym, word,
};

verus! {

/// A command of plain words: a literal name, then literal or wildcard arguments.
pub open spec fn simple(w: Seq<Lexeme>) -> bool {
    &&& w.len() > 0
    &&& w[0].0 == Kind::Literal
    &&& forall|i: int| 1 <= i < w.len() ==> word(#[trigger] w[i])
}

/// The literal leaves of a run of words.
pub open spec fn literals(w: Seq<Lexeme>) -> Seq<Node> {
    w.map_values(|t: Lexeme| Node::Literal(t.1))
}

/// The tree of a command of plain words.
pub open spec fn simple_node(w: Seq<Lexeme>) -> Node {
    Node::Command {
        name: Box::new(Node::Literal(w[0].1)),
        args: literals(w.subrange(1, w.len() as int)),
    }
}

/// A single `|` token.
pub open spec fn bar() -> Lexeme {
    (Kind::Symbol, seq!['|'])
}

/// Where a command of plain words stops: at the end, or at a `|`.
pub open spec fn stops(ts: Seq<Lexeme>, e: int) -> bool {
    e == ts.len() || (0 <= e < ts.len() && sym(ts[e], '|'))
}

proof fn lemma_words(ts: Seq<Lexeme>, j: int, e: int, name: Node, acc: Seq<Node>)
    requires
        0 <= j <= e <= ts.len(),
        forall|i: int| j <= i < e ==> word(#[trigger] ts[i]),
        stops(ts, e),
    ensures
        arguments(ts, j, name, acc) == Ok::<(Node, int), ParseError>(
            (
                Node::Command {
                    name: Box::new(name),
                    args: acc + literals(ts.subrange(j, e)),
                },
                e,
            ),
        ),
    decreases e - j,
{
    if j == e {
        assert(acc + literals(ts.subrange(j, e)) =~= acc);
        if e < ts.len() {
            assert(!word(ts[e]));
            assert(ts[e].1 == seq!['|']);
            assert(ts[e].1[0] == '|');
            assert(!sym(ts[e], '$') && !sym(ts[e], '"') && !sym(ts[e], '\''));
        }
    } else {
        assert(word(ts[j]));
        let acc2 = acc.push(Node::Literal(ts[j].1));
        lemma_words(ts, j + 1, e, name, acc2);
        assert(acc2 + literals(ts.subrange(j + 1, e)) =~= acc + literals(ts.subrange(j, e)));
    }
}

proof fn lemma_simple_command(ts: Seq<Lexeme>, i: int, w: Seq<Lexeme>)
    requires
        0 <= i,
        i + w.len() <= ts.len(),
        ts.subrange(i, i + w.len()) == w,
        simple(w),
        stops(ts, i + w.len()),
    ensures
        command(ts, i) == Ok::<(Node, int), ParseError>(
            (simple_node(w), i + w.len()),
        ),
{
    let e = i + w.len();
    assert(ts[i] == w[0]);
    assert forall|k: int| i + 1 <= k < e implies word(#[trigger] ts[k]) by {
        assert(ts[k] == w[k - i]);
    }
    lemma_words(ts, i + 1, e, Node::Literal(ts[i].1), seq![]);
    assert(ts.subrange(i + 1, e) =~= w.subrange(1, w.len() as int));
    assert(Seq::<Node>::empty() + literals(ts.subrange(i + 1, e)) =~= literals(
        w.subrange(1, w.len() as int),
    ));
}

/// Pipes group to the left: when the tokens are three commands `a`, `b` and
/// `c` joined by `|`, they parse to the pipe of `a` and `b`, piped into `c`.
pub proof fn lemma_pipes_group_left(
    ts: Seq<Lexeme>,
    a: Node,
    b: Node,
    c: Node,
    i1: int,
    i2: int,
)
    requires
        command(ts, 0) == Ok::<(Node, int), ParseError>((a, i1)),
        0 < i1 < ts.len(),
        sym(ts[i1], '|'),
        command(ts, i1 + 1) == Ok::<(Node, int), ParseError>((b, i2)),
        i1 < i2 < ts.len(),
        sym(ts[i2], '|'),
        command(ts, i2 + 1) == Ok::<(Node, int), ParseError>((c, ts.len() as int)),
    ensures
        parse_lexemes(ts) == Ok::<Node, ParseError>(
            Node::Pipe(Box::new(Node::Pipe(Box::new(a), Box::new(b))), Box::new(c)),
        ),
{
    let n = ts.len() as int;
    let ab = Node::Pipe(Box::new(a), Box::new(b));
    let abc = Node::Pipe(Box::new(ab), Box::new(c));
    assert(pipe_rest(ts, n, abc) == Ok::<(Node, int), ParseError>((abc, n)));
    assert(pipe_rest(ts, i2, ab) == Ok::<(Node, int), ParseError>((abc, n)));
    assert(pipe_rest(ts, i1, a) == Ok::<(Node, int), ParseError>((abc, n)));
}

/// Commands piped one into the next, grouped to the left.
pub open spec fn piped(cs: Seq<Node>) -> Node
    decreases cs.len(),
{
    if cs.len() <= 1 {
        cs[0]
    } else {
        Node::Pipe(Box::new(piped(cs.drop_last())), Box::new(cs.last()))
    }
}

/// The tokens are the commands `cs` joined by `|`: the `j`-th command is
/// parsed where the `|` before it ends, and stops at `ends[j]`; the last one
/// stops at the end of the tokens.
pub open spec fn joined(ts: Seq<Lexeme>, cs: Seq<Node>, ends: Seq<int>) -> bool {
    &&& cs.len() >= 1
    &&& ends.len() == cs.len()
    &&& ends[cs.len() - 1] == ts.len()
    &&& command(ts, 0) == Ok::<(Node, int), ParseError>((cs[0], ends[0]))
    &&& 0 < ends[0]
    &&& forall|j: int| 0 <= j < ends.len() ==> #[trigger] ends[j] <= ts.len()
    &&& forall|j: int|
        1 <= j < cs.len() ==> {
            &&& ends[j - 1] < ends[j]
            &&& sym(ts[ends[j - 1]], '|')
            &&& command(ts, ends[j - 1] + 1) == Ok::<(Node, int), ParseError>(
                (#[trigger] cs[j], ends[j]),
            )
        }
}

proof fn lemma_pipe_fold(ts: Seq<Lexeme>, cs: Seq<Node>, ends: Seq<int>, k: int)
    requires
        joined(ts, cs, ends),
        1 <= k <= cs.len(),
    ensures
        pipe_rest(ts, ends[k - 1], piped(cs.subrange(0, k))) == Ok::<(Node, int), ParseError>(
            (piped(cs), ts.len() as int),
        ),
    decreases cs.len() - k,
{
    let n = cs.len() as int;
    if k == n {
        assert(cs.subrange(0, k) =~= cs);
    } else {
        let e = ends[k - 1];
        assert(ends[k - 1] < ends[k] && sym(ts[ends[k - 1]], '|') && command(ts, e + 1) == Ok::<
            (Node, int),
            ParseError,
        >((cs[k], ends[k])));
        assert(ends[k] <= ts.len());
        lemma_pipe_fold(ts, cs, ends, k + 1);
        assert(cs.subrange(0, k + 1).drop_last() =~= cs.subrange(0, k));
        assert(piped(cs.subrange(0, k + 1)) == Node::Pipe(
            Box::new(piped(cs.subrange(0, k))),
            Box::new(cs[k]),
        ));
    }
}

/// Pipes group to the left for any number of commands: commands joined by
/// `|` parse to the first piped into the second, that pipe piped into the
/// third, and so on.
pub proof fn lemma_pipeline_folds_left(ts: Seq<Lexeme>, cs: Seq<Node>, ends: Seq<int>)
    requires
        joined(ts, cs, ends),
    ensures
        parse_lexemes(ts) == Ok::<Node, ParseError>(piped(cs)),
{
    lemma_pipe_fold(ts, cs, ends, 1);
    assert(piped(cs.subrange(0, 1)) == cs[0]);
    assert(ends[0] <= ts.len());
}

/// Pipes group to the left, shown on three commands of plain words joined by
/// `|`: the tree is the pipe of the first two, piped into the third.
pub proof fn lemma_word_pipes_group_left(a: Seq<Lexeme>, b: Seq<Lexeme>, c: Seq<Lexeme>)
    requires
        simple(a),
        simple(b),
        simple(c),
    ensures
        parse_lexemes(a + seq![bar()] + b + seq![bar()] + c) == Ok::<
            Node,
            ParseError,
        >(
            Node::Pipe(
                Box::new(Node::Pipe(Box::new(simple_node(a)), Box::new(simple_node(b)))),
                Box::new(simple_node(c)),
            ),
        ),
{
    let ts = a + seq![bar()] + b + seq![bar()] + c;
    let na = a.len() as int;
    let nb = b.len() as int;
    let nc = c.len() as int;
    let i1 = na;
    let i2 = na + 1 + nb;
    let n = ts.len() as int;
    assert(n == na + nb + nc + 2);
    assert(ts[i1] == bar());
    assert(ts[i2] == bar());
    assert(sym(bar(), '|'));
    assert(ts.subrange(0, na) =~= a);
    assert(ts.subrange(i1 + 1, i1 + 1 + nb) =~= b);
    assert(ts.subrange(i2 + 1, i2 + 1 + nc) =~= c);
    lemma_simple_command(ts, 0, a);
    lemma_simple_command(ts, i1 + 1, b);
    lemma_simple_command(ts, i2 + 1, c);
    lemma_pipes_group_left(ts, simple_node(a), simple_node(b), simple_node(c), i1, i2);
}

/// There is a `$` among the tokens from `i` up to `k`.
pub open spec fn has_dollar(ts: Seq<Lexeme>, i: int, k: int) -> bool {
    exists|j: int| i <= j < k && sym(#[trigger] ts[j], '$')
}

proof fn lemma_quote_after_substitution(ts: Seq<Lexeme>, i: int, q: char, acc: Seq<Node>)
    requires
        acc.len() > 0,
        quote(ts, i, q, acc) is Ok,
    ensures
        quote(ts, i, q, acc)->Ok_0.0 is Quote,
    decreases ts.len() - i,
{
    if sym(ts[i + 1], q) {
    } else {
        let (n, k) = substitution(ts, i + 2)->Ok_0;
        lemma_quote_after_substitution(ts, k, q, acc.push(Node::String(ts[i].1)).push(n));
    }
}

proof fn lemma_quote_advances(ts: Seq<Lexeme>, i: int, q: char, acc: Seq<Node>)
    requires
        quote(ts, i, q, acc) is Ok,
    ensures
        quote(ts, i, q, acc)->Ok_0.1 > i + 1,
    decreases ts.len() - i,
{
    if !sym(ts[i + 1], q) {
        let (n, k) = substitution(ts, i + 2)->Ok_0;
        lemma_quote_advances(ts, k, q, acc.push(Node::String(ts[i].1)).push(n));
    }
}

/// A quote with no `$` inside becomes one string leaf that keeps its
/// delimiters, made of its text and its closing symbol; a quote with a `$`
/// inside becomes a quote node.
pub proof fn lemma_quote_flattening(ts: Seq<Lexeme>, i: int, q: char)
    requires
        q != '$',
        quote(ts, i, q, seq![]) is Ok,
    ensures
        ({
            let (n, k) = quote(ts, i, q, seq![])->Ok_0;
            &&& !has_dollar(ts, i, k) ==> n == Node::String(seq![q] + ts[i].1 + seq![q]) && k == i
                + 2
            &&& has_dollar(ts, i, k) ==> n is Quote
        }),
{
    let (n, k) = quote(ts, i, q, seq![])->Ok_0;
    if sym(ts[i + 1], q) {
        assert(k == i + 2);
        assert(!sym(ts[i], '$'));
        assert(!sym(ts[i + 1], '$')) by {
            assert(ts[i + 1].1[0] == q);
        }
        assert(!has_dollar(ts, i, k));
    } else {
        assert(sym(ts[i + 1], '$'));
        let (s, k2) = substitution(ts, i + 2)->Ok_0;
        lemma_quote_after_substitution(
            ts,
            k2,
            q,
            Seq::<Node>::empty().push(Node::String(ts[i].1)).push(s),
        );
        lemma_quote_advances(ts, k2, q, Seq::<Node>::empty().push(Node::String(ts[i].1)).push(s));
        assert(i <= i + 1 < k);
        assert(has_dollar(ts, i, k));
    }
}

} // verus!
