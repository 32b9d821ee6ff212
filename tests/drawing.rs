use lang::lexer::tokenize;
use lang::parser::parse;

fn drawn(line: &str) -> String {
    parse(&tokenize(line).unwrap()).unwrap().render()
}

#[test]
fn render_pipeline() {
    let expected = [
        "PIPE",
        "├──PIPE",
        "│   ├──COMMAND",
        "│   │   ├──LITERAL: history",
        "│   │   └──ARGS",
        "│   └──COMMAND",
        "│       ├──LITERAL: grep",
        "│       └──ARGS",
        "│           └──LITERAL: git",
        "└──COMMAND",
        "    ├──LITERAL: xargs",
        "    └──ARGS",
        "        └──LITERAL: rm",
    ]
    .join("\n");
    assert_eq!(drawn("history | grep git | xargs rm"), expected);
}

#[test]
fn render_subshell_and_quote() {
    let expected = [
        "COMMAND",
        "├──LITERAL: echo",
        "└──ARGS",
        "    ├──SUBSHELL",
        "    │   └──COMMAND",
        "    │       ├──LITERAL: ls",
        "    │       └──ARGS",
        "    │           └──LITERAL: -a",
        "    └──QUOTE",
        "        └──",
        "            ├──STRING: x ",
        "            ├──IDENT: V",
        "            └──STRING: ",
    ]
    .join("\n");
    assert_eq!(drawn(r#"echo $(ls -a) "x $V""#), expected);
}

#[test]
fn render_leaf_string() {
    let expected = ["COMMAND", "├──LITERAL: grep", "└──ARGS", "    └──STRING: 'a b'"].join("\n");
    assert_eq!(drawn("grep 'a b'"), expected);
}
