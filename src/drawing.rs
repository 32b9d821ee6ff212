//! A command tree drawn as text, one node per line, with branches.
use vstd::prelude::*;
use crate::lexer::{chars_of, string_of};
use crate::parser::{Node, Tree, lemma_command_node, lemma_quote_node, nodes};

verus! {

/// The branch to a child that has siblings after it.
pub open spec fn tee() -> Seq<char> {
    "\u{251c}\u{2500}\u{2500}"@
}

/// The branch to the last child.
pub open spec fn ell() -> Seq<char> {
    "\u{2514}\u{2500}\u{2500}"@
}

/// What lines under a child with siblings after it start with.
pub open spec fn bar() -> Seq<char> {
    "\u{2502}   "@
}

/// What lines under the last child start with.
pub open spec fn blank() -> Seq<char> {
    "    "@
}

/// The drawing of a node whose lines below the first start with `pad`.
pub open spec fn drawing(n: Node, pad: Seq<char>) -> Seq<char>
    decreases n, 0nat,
{
    match n {
        Node::Pipe(l, r) => "PIPE\n"@ + pad + tee() + drawing(*l, pad + bar()) + "\n"@ + pad
            + ell() + drawing(*r, pad + blank()),
        Node::Command { name, args } => "COMMAND\n"@ + pad + tee() + drawing(*name, pad + bar())
            + "\n"@ + pad + ell() + "ARGS"@ + listing(args, pad + blank(), 0),
        Node::Subshell(p) => "SUBSHELL\n"@ + pad + ell() + drawing(*p, pad + blank()),
        Node::Quote(_, parts) => "QUOTE\n"@ + pad + ell() + listing(parts, pad + blank(), 0),
        Node::Literal(s) => "LITERAL: "@ + s,
        Node::Identifier(s) => "IDENT: "@ + s,
        Node::String(s) => "STRING: "@ + s,
    }
}

/// The drawing of the children from the `k`-th on, each on a new line.
pub open spec fn listing(v: Seq<Node>, pad: Seq<char>, k: int) -> Seq<char>
    decreases v, (v.len() - k) as nat,
{
    if k < 0 || k >= v.len() {
        seq![]
    } else if k == v.len() - 1 {
        "\n"@ + pad + ell() + drawing(v[k], pad + blank())
    } else {
        "\n"@ + pad + tee() + drawing(v[k], pad + bar()) + listing(v, pad, k + 1)
    }
}

fn append(out: &mut Vec<char>, s: &str)
    ensures
        final(out)@ == old(out)@ + s@,
{
    let v = chars_of(s);
    let mut i: usize = 0;
    while i < v.len()
        invariant
            i <= v.len(),
            v@ == s@,
            out@ == old(out)@ + v@.subrange(0, i as int),
        decreases v.len() - i,
    {
        out.push(v[i]);
        assert(v@.subrange(0, i as int + 1) =~= v@.subrange(0, i as int).push(v@[i as int]));
        i = i + 1;
    }
    assert(v@.subrange(0, v.len() as int) =~= v@);
}

fn extended(pad: &Vec<char>, s: &str) -> (r: Vec<char>)
    ensures
        r@ == pad@ + s@,
{
    let mut r: Vec<char> = Vec::new();
    let mut i: usize = 0;
    while i < pad.len()
        invariant
            i <= pad.len(),
            r@ == pad@.subrange(0, i as int),
        decreases pad.len() - i,
    {
        r.push(pad[i]);
        assert(pad@.subrange(0, i as int + 1) =~= pad@.subrange(0, i as int).push(pad@[i as int]));
        i = i + 1;
    }
    assert(pad@.subrange(0, pad.len() as int) =~= pad@);
    append(&mut r, s);
    r
}

fn append_chars(out: &mut Vec<char>, pad: &Vec<char>)
    ensures
        final(out)@ == old(out)@ + pad@,
{
    let mut i: usize = 0;
    while i < pad.len()
        invariant
            i <= pad.len(),
            out@ == old(out)@ + pad@.subrange(0, i as int),
        decreases pad.len() - i,
    {
        out.push(pad[i]);
        assert(pad@.subrange(0, i as int + 1) =~= pad@.subrange(0, i as int).push(pad@[i as int]));
        i = i + 1;
    }
    assert(pad@.subrange(0, pad.len() as int) =~= pad@);
}

fn draw(t: &Tree, pad: &Vec<char>, out: &mut Vec<char>)
    ensures
        final(out)@ == old(out)@ + drawing(t.node(), pad@),
    decreases t, 0nat,
{
    let ghost start = out@;
    match t {
        Tree::Pipe(l, r) => {
            append(out, "PIPE\n");
            append_chars(out, pad);
            append(out, "\u{251c}\u{2500}\u{2500}");
            draw(l, &extended(pad, "\u{2502}   "), out);
            append(out, "\n");
            append_chars(out, pad);
            append(out, "\u{2514}\u{2500}\u{2500}");
            draw(r, &extended(pad, "    "), out);
            assert(out@ =~= start + drawing(t.node(), pad@));
        },
        Tree::Command { name, args } => {
            proof {
                lemma_command_node(*name, *args);
            }
            append(out, "COMMAND\n");
            append_chars(out, pad);
            append(out, "\u{251c}\u{2500}\u{2500}");
            draw(name, &extended(pad, "\u{2502}   "), out);
            append(out, "\n");
            append_chars(out, pad);
            append(out, "\u{2514}\u{2500}\u{2500}");
            append(out, "ARGS");
            draw_list(args, &extended(pad, "    "), out);
            assert(out@ =~= start + drawing(t.node(), pad@));
        },
        Tree::Subshell(p) => {
            append(out, "SUBSHELL\n");
            append_chars(out, pad);
            append(out, "\u{2514}\u{2500}\u{2500}");
            draw(p, &extended(pad, "    "), out);
            assert(out@ =~= start + drawing(t.node(), pad@));
        },
        Tree::Quote(q, parts) => {
            proof {
                lemma_quote_node(*q, *parts);
            }
            append(out, "QUOTE\n");
            append_chars(out, pad);
            append(out, "\u{2514}\u{2500}\u{2500}");
            draw_list(parts, &extended(pad, "    "), out);
            assert(out@ =~= start + drawing(t.node(), pad@));
        },
        Tree::Literal(s) => {
            append(out, "LITERAL: ");
            append(out, s.as_str());
            assert(out@ =~= start + drawing(t.node(), pad@));
        },
        Tree::Identifier(s) => {
            append(out, "IDENT: ");
            append(out, s.as_str());
            assert(out@ =~= start + drawing(t.node(), pad@));
        },
        Tree::String(s) => {
            append(out, "STRING: ");
            append(out, s.as_str());
            assert(out@ =~= start + drawing(t.node(), pad@));
        },
    }
}

fn draw_list(v: &Vec<Tree>, pad: &Vec<char>, out: &mut Vec<char>)
    ensures
        final(out)@ == old(out)@ + listing(nodes(v@), pad@, 0),
    decreases v, 1nat,
{
    let ghost ns = nodes(v@);
    let ghost start = out@;
    let n = v.len();
    let mut k: usize = 0;
    while k < n
        invariant
            n == v.len() == ns.len(),
            ns == nodes(v@),
            k <= n,
            start + listing(ns, pad@, 0) == out@ + listing(ns, pad@, k as int),
        decreases n - k,
    {
        let ghost before = out@;
        append(out, "\n");
        append_chars(out, pad);
        if k == n - 1 {
            append(out, "\u{2514}\u{2500}\u{2500}");
            draw(&v[k], &extended(pad, "    "), out);
            assert(listing(ns, pad@, k as int + 1) == Seq::<char>::empty());
        } else {
            append(out, "\u{251c}\u{2500}\u{2500}");
            draw(&v[k], &extended(pad, "\u{2502}   "), out);
        }
        assert(ns[k as int] == v@[k as int].node());
        assert(before + listing(ns, pad@, k as int) =~= out@ + listing(ns, pad@, k as int + 1));
        k = k + 1;
    }
    assert(listing(ns, pad@, n as int) == Seq::<char>::empty());
    assert(out@ =~= start + listing(ns, pad@, 0));
}

impl Tree {
    /// The tree drawn as text: one node per line, children below their
    /// parent on branches.
    pub fn render(&self) -> (r: String)
        ensures
            r@ == drawing(self.node(), seq![]),
    {
        let mut out: Vec<char> = Vec::new();
        let pad: Vec<char> = Vec::new();
        draw(self, &pad, &mut out);
        assert(out@ =~= drawing(self.node(), seq![]));
        string_of(&out)
    }
}

} // verus!
