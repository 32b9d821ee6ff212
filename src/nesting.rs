//! Subshells nest in the tree as deep as `$(` groups nest in the tokens.
use vstd::prelude::*;
use crate::lexer::{Kind, Lexeme};
use crate::parser::{
    Node, arguments, command, parse_lexemes, pipe_rest, pipeline, quote, substitution, sym, word,
};

verus! {

pub open spec fn max(a: int, b: int) -> int {
    if a >= b {
        a
    } else {
        b
    }
}

/// How deep subshells nest in a tree.
pub open spec fn depth(n: Node) -> int
    decreases n, 0nat,
{
    match n {
        Node::Pipe(l, r) => max(depth(*l), depth(*r)),
        Node::Command { name, args } => max(depth(*name), depth_all(args, args.len() as int)),
        Node::Quote(_, parts) => depth_all(parts, parts.len() as int),
        Node::Subshell(p) => 1 + depth(*p),
        _ => 0,
    }
}

/// How deep subshells nest in the first `k` trees.
pub open spec fn depth_all(s: Seq<Node>, k: int) -> int
    decreases s, k,
{
    if k <= 0 || k > s.len() {
        0
    } else {
        max(depth_all(s, k - 1), depth(s[k - 1]))
    }
}

proof fn lemma_depth_nonneg(n: Node)
    ensures
        depth(n) >= 0,
    decreases n, 0nat,
{
    match n {
        Node::Pipe(l, r) => {
            lemma_depth_nonneg(*l);
            lemma_depth_nonneg(*r);
        },
        Node::Command { name, args } => {
            lemma_depth_nonneg(*name);
            lemma_depth_all_nonneg(args, args.len() as int);
        },
        Node::Quote(_, parts) => lemma_depth_all_nonneg(parts, parts.len() as int),
        Node::Subshell(p) => lemma_depth_nonneg(*p),
        _ => {},
    }
}

proof fn lemma_depth_all_nonneg(s: Seq<Node>, k: int)
    ensures
        depth_all(s, k) >= 0,
    decreases s, k,
{
    if 0 < k <= s.len() {
        lemma_depth_all_nonneg(s, k - 1);
        lemma_depth_nonneg(s[k - 1]);
    }
}

proof fn lemma_depth_all_prefix(s: Seq<Node>, x: Node, k: int)
    requires
        k <= s.len(),
    ensures
        depth_all(s.push(x), k) == depth_all(s, k),
    decreases k,
{
    if 0 < k {
        lemma_depth_all_prefix(s, x, k - 1);
        assert(s.push(x)[k - 1] == s[k - 1]);
    }
}

proof fn lemma_depth_all_push(s: Seq<Node>, x: Node)
    ensures
        depth_all(s.push(x), s.len() as int + 1) == max(depth_all(s, s.len() as int), depth(x)),
{
    lemma_depth_all_prefix(s, x, s.len() as int);
    assert(s.push(x)[s.len() as int] == x);
}

/// How a token changes the number of open `$(` groups: a `(` right after a
/// `$` opens one, a `)` closes one.
pub open spec fn delta(ts: Seq<Lexeme>, j: int) -> int {
    if 0 < j < ts.len() && sym(ts[j], '(') && sym(ts[j - 1], '$') {
        1
    } else if 0 <= j < ts.len() && sym(ts[j], ')') {
        -1
    } else {
        0
    }
}

/// The groups opened minus the groups closed by the tokens from `i` up to `k`.
pub open spec fn level(ts: Seq<Lexeme>, i: int, k: int) -> int
    decreases k - i,
{
    if k <= i {
        0
    } else {
        level(ts, i, k - 1) + delta(ts, k - 1)
    }
}

/// The most groups open at once among the tokens from `i` up to `k`,
/// counted from `i`.
pub open spec fn peak(ts: Seq<Lexeme>, i: int, k: int) -> int
    decreases k - i,
{
    if k <= i {
        0
    } else {
        max(peak(ts, i, k - 1), level(ts, i, k))
    }
}

proof fn lemma_peak_bounds(ts: Seq<Lexeme>, i: int, k: int)
    ensures
        peak(ts, i, k) >= 0,
        peak(ts, i, k) >= level(ts, i, k),
    decreases k - i,
{
    if k > i {
        lemma_peak_bounds(ts, i, k - 1);
    }
}

proof fn lemma_split(ts: Seq<Lexeme>, i: int, j: int, k: int)
    requires
        i <= j <= k,
    ensures
        level(ts, i, k) == level(ts, i, j) + level(ts, j, k),
        peak(ts, i, k) == max(peak(ts, i, j), level(ts, i, j) + peak(ts, j, k)),
    decreases k - j,
{
    if k == j {
        lemma_peak_bounds(ts, i, j);
    } else {
        lemma_split(ts, i, j, k - 1);
    }
}

proof fn lemma_one(ts: Seq<Lexeme>, j: int)
    ensures
        level(ts, j, j + 1) == delta(ts, j),
        peak(ts, j, j + 1) == max(0, delta(ts, j)),
{
    assert(level(ts, j, j) == 0);
    assert(peak(ts, j, j) == 0);
}

proof fn lemma_sym_unique(t: Lexeme, c: char, d: char)
    requires
        sym(t, c),
        c != d,
    ensures
        !sym(t, d),
{
    assert(t.1[0] == c);
}

/// The tokens from `i` up to `k` close every group they open, and at most
/// `d` are open at once.
pub open spec fn balanced(ts: Seq<Lexeme>, i: int, k: int, d: int) -> bool {
    level(ts, i, k) == 0 && peak(ts, i, k) == d
}

proof fn lemma_pipeline(ts: Seq<Lexeme>, i: int)
    requires
        0 <= i,
        pipeline(ts, i) is Ok,
    ensures
        ({
            let (n, k) = pipeline(ts, i)->Ok_0;
            i < k <= ts.len() && balanced(ts, i, k, depth(n))
        }),
    decreases ts.len() - i, 1nat,
{
    let (c, j) = command(ts, i)->Ok_0;
    lemma_command(ts, i);
    lemma_pipe_rest(ts, j, c);
    let (n, k) = pipe_rest(ts, j, c)->Ok_0;
    lemma_split(ts, i, j, k);
}

proof fn lemma_pipe_rest(ts: Seq<Lexeme>, j: int, acc: Node)
    requires
        0 <= j <= ts.len(),
        pipe_rest(ts, j, acc) is Ok,
    ensures
        ({
            let (n, k) = pipe_rest(ts, j, acc)->Ok_0;
            &&& j <= k <= ts.len()
            &&& level(ts, j, k) == 0
            &&& depth(n) == max(depth(acc), peak(ts, j, k))
        }),
    decreases ts.len() - j, 0nat,
{
    lemma_depth_nonneg(acc);
    if j < ts.len() && sym(ts[j], '|') {
        let (c, k1) = command(ts, j + 1)->Ok_0;
        lemma_command(ts, j + 1);
        let p = Node::Pipe(Box::new(acc), Box::new(c));
        lemma_pipe_rest(ts, k1, p);
        let (n, k) = pipe_rest(ts, k1, p)->Ok_0;
        lemma_sym_unique(ts[j], '|', '(');
        lemma_sym_unique(ts[j], '|', ')');
        lemma_one(ts, j);
        lemma_split(ts, j, j + 1, k1);
        lemma_split(ts, j, k1, k);
    }
}

proof fn lemma_command(ts: Seq<Lexeme>, i: int)
    requires
        0 <= i,
        command(ts, i) is Ok,
    ensures
        ({
            let (n, k) = command(ts, i)->Ok_0;
            i < k <= ts.len() && balanced(ts, i, k, depth(n))
        }),
    decreases ts.len() - i, 0nat,
{
    lemma_one(ts, i);
    if ts[i].0 == Kind::Literal {
        let name = Node::Literal(ts[i].1);
        lemma_arguments(ts, i + 1, name, seq![]);
        let (n, k) = arguments(ts, i + 1, name, seq![])->Ok_0;
        lemma_split(ts, i, i + 1, k);
        lemma_peak_bounds(ts, i + 1, k);
    } else {
        lemma_sym_unique(ts[i], '$', '(');
        lemma_sym_unique(ts[i], '$', ')');
        let (s, j) = substitution(ts, i + 1)->Ok_0;
        lemma_substitution(ts, i + 1);
        lemma_arguments(ts, j, s, seq![]);
        let (n, k) = arguments(ts, j, s, seq![])->Ok_0;
        lemma_split(ts, i, i + 1, j);
        lemma_split(ts, i, j, k);
        lemma_peak_bounds(ts, j, k);
        lemma_depth_nonneg(s);
    }
}

proof fn lemma_arguments(ts: Seq<Lexeme>, j: int, name: Node, acc: Seq<Node>)
    requires
        0 <= j <= ts.len(),
        arguments(ts, j, name, acc) is Ok,
    ensures
        ({
            let (n, k) = arguments(ts, j, name, acc)->Ok_0;
            &&& j <= k <= ts.len()
            &&& level(ts, j, k) == 0
            &&& depth(n) == max(max(depth(name), depth_all(acc, acc.len() as int)), peak(ts, j, k))
        }),
    decreases ts.len() - j, 0nat,
{
    lemma_depth_nonneg(name);
    lemma_depth_all_nonneg(acc, acc.len() as int);
    if j < ts.len() && word(ts[j]) {
        let x = Node::Literal(ts[j].1);
        lemma_arguments(ts, j + 1, name, acc.push(x));
        let (n, k) = arguments(ts, j + 1, name, acc.push(x))->Ok_0;
        lemma_depth_all_push(acc, x);
        lemma_one(ts, j);
        lemma_split(ts, j, j + 1, k);
    } else if j < ts.len() && (sym(ts[j], '$') || sym(ts[j], '"') || sym(ts[j], '\'')) {
        lemma_one(ts, j);
        let (s, k1) = if sym(ts[j], '$') {
            lemma_substitution(ts, j + 1);
            substitution(ts, j + 1)->Ok_0
        } else {
            let q = ts[j].1[0];
            assert(q == '"' || q == '\'');
            lemma_quote(ts, j + 1, q, seq![]);
            assert(depth_all(seq![], 0) == 0);
            quote(ts, j + 1, q, seq![])->Ok_0
        };
        lemma_depth_nonneg(s);
        lemma_arguments(ts, k1, name, acc.push(s));
        let (n, k) = arguments(ts, k1, name, acc.push(s))->Ok_0;
        lemma_depth_all_push(acc, s);
        lemma_split(ts, j, j + 1, k1);
        lemma_split(ts, j, k1, k);
        lemma_peak_bounds(ts, k1, k);
    } else {
        if let Node::Command { name: nm, args } = arguments(ts, j, name, acc)->Ok_0.0 {
            assert(*nm == name);
            assert(args == acc);
        }
    }
}

proof fn lemma_substitution(ts: Seq<Lexeme>, i: int)
    requires
        1 <= i <= ts.len(),
        sym(ts[i - 1], '$'),
        substitution(ts, i) is Ok,
    ensures
        ({
            let (n, k) = substitution(ts, i)->Ok_0;
            i < k <= ts.len() && balanced(ts, i, k, depth(n))
        }),
    decreases ts.len() - i, 0nat,
{
    lemma_one(ts, i);
    if sym(ts[i], '(') {
        let (p, k0) = pipeline(ts, i + 1)->Ok_0;
        lemma_pipeline(ts, i + 1);
        lemma_sym_unique(ts[k0], ')', '(');
        assert(delta(ts, i) == 1);
        assert(delta(ts, k0) == -1);
        lemma_one(ts, k0);
        lemma_split(ts, i, i + 1, k0);
        lemma_split(ts, i, k0, k0 + 1);
        lemma_depth_nonneg(p);
    }
}

proof fn lemma_quote(ts: Seq<Lexeme>, i: int, q: char, acc: Seq<Node>)
    requires
        0 <= i,
        q != '(',
        q != ')',
        quote(ts, i, q, acc) is Ok,
    ensures
        ({
            let (n, k) = quote(ts, i, q, acc)->Ok_0;
            &&& i < k <= ts.len()
            &&& level(ts, i, k) == 0
            &&& depth(n) == max(depth_all(acc, acc.len() as int), peak(ts, i, k))
        }),
    decreases ts.len() - i, 0nat,
{
    lemma_depth_all_nonneg(acc, acc.len() as int);
    lemma_one(ts, i);
    lemma_one(ts, i + 1);
    lemma_split(ts, i, i + 1, i + 2);
    let x = Node::String(ts[i].1);
    lemma_depth_all_push(acc, x);
    if sym(ts[i + 1], q) {
        lemma_sym_unique(ts[i + 1], q, '(');
        lemma_sym_unique(ts[i + 1], q, ')');
    } else {
        lemma_sym_unique(ts[i + 1], '$', '(');
        lemma_sym_unique(ts[i + 1], '$', ')');
        let (s, k1) = substitution(ts, i + 2)->Ok_0;
        lemma_substitution(ts, i + 2);
        lemma_depth_nonneg(s);
        let acc2 = acc.push(x).push(s);
        lemma_depth_all_push(acc.push(x), s);
        lemma_quote(ts, k1, q, acc2);
        let (n, k) = quote(ts, k1, q, acc2)->Ok_0;
        lemma_split(ts, i, i + 2, k1);
        lemma_split(ts, i, k1, k);
        lemma_peak_bounds(ts, k1, k);
    }
}

/// The subshells of a parsed tree nest exactly as deep as the most `$(`
/// groups that are open at once in its tokens.
pub proof fn lemma_nesting_depth(ts: Seq<Lexeme>)
    requires
        parse_lexemes(ts) is Ok,
    ensures
        depth(parse_lexemes(ts)->Ok_0) == peak(ts, 0, ts.len() as int),
{
    lemma_pipeline(ts, 0);
}

} // verus!
