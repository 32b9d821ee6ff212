use lang::lexer::{tokenize, LexError, Token};
use lang::parser::{parse, ParseError, Tree};

fn lit(s: &str) -> Tree {
    Tree::Literal(s.to_string())
}

fn cmd(name: &str, args: Vec<Tree>) -> Tree {
    Tree::Command { name: Box::new(lit(name)), args }
}

fn tree_of(line: &str) -> Result<Tree, ParseError> {
    parse(&tokenize(line).unwrap())
}

#[test]
fn flags_become_arguments() {
    let tokens = tokenize("ls -F --group-directories-first").unwrap();
    assert_eq!(
        tokens,
        vec![
            Token::Literal("ls".into()),
            Token::Literal("-F".into()),
            Token::Literal("--group-directories-first".into())
        ]
    );
    assert_eq!(
        parse(&tokens).unwrap(),
        cmd("ls", vec![lit("-F"), lit("--group-directories-first")])
    );
}

#[test]
fn pipes_fold_to_the_left() {
    assert_eq!(
        tree_of("history | grep git | xargs rm").unwrap(),
        Tree::Pipe(
            Box::new(Tree::Pipe(
                Box::new(cmd("history", vec![])),
                Box::new(cmd("grep", vec![lit("git")]))
            )),
            Box::new(cmd("xargs", vec![lit("rm")]))
        )
    );
    assert_eq!(
        tree_of("a | b | c").unwrap(),
        Tree::Pipe(
            Box::new(Tree::Pipe(Box::new(cmd("a", vec![])), Box::new(cmd("b", vec![])))),
            Box::new(cmd("c", vec![]))
        )
    );
}

#[test]
fn substitution_holds_a_subshell() {
    assert_eq!(
        tree_of("echo $(ls -a)").unwrap(),
        cmd(
            "echo",
            vec![Tree::Subshell(Box::new(cmd("ls", vec![lit("-a")])))]
        )
    );
}

#[test]
fn assignment_is_a_symbol() {
    assert_eq!(
        tokenize(r#"MY_VAR="value""#).unwrap(),
        vec![
            Token::Literal("MY_VAR".into()),
            Token::Symbol("=".into()),
            Token::Symbol("\"".into()),
            Token::Str("value".into()),
            Token::Symbol("\"".into())
        ]
    );
    assert_eq!(tree_of(r#"MY_VAR="value""#), Err(ParseError::UnexpectedToken));
}

#[test]
fn unterminated_quote_is_an_error() {
    assert_eq!(tokenize(r#"echo "abc"#), Err(LexError::UnterminatedQuote));
    assert_eq!(tokenize("echo 'abc $(x) def"), Err(LexError::UnterminatedQuote));
}

#[test]
fn unclosed_group_is_a_parse_error() {
    let tokens = tokenize("echo $(ls -a").unwrap();
    assert_eq!(
        tokens,
        vec![
            Token::Literal("echo".into()),
            Token::Symbol("$".into()),
            Token::Symbol("(".into()),
            Token::Literal("ls".into()),
            Token::Literal("-a".into())
        ]
    );
    assert_eq!(parse(&tokens), Err(ParseError::UnbalancedParenthesis));
    let tokens = tokenize("(a").unwrap();
    assert_eq!(tokens, vec![Token::Symbol("(".into()), Token::Literal("a".into())]);
    assert_eq!(parse(&tokens), Err(ParseError::InvalidCommandHead));
}

#[test]
fn substitution_left_open_inside_quote_is_an_error() {
    assert_eq!(tokenize(r#"echo "$(ls -a"#), Err(LexError::DanglingContext));
    assert_eq!(tokenize(r#"echo "a $X"#), Err(LexError::DanglingContext));
}

#[test]
fn empty_name_inside_quote() {
    let tokens = tokenize(r#"echo "cost $ 5""#).unwrap();
    assert_eq!(
        tokens,
        vec![
            Token::Literal("echo".into()),
            Token::Symbol("\"".into()),
            Token::Str("cost ".into()),
            Token::Symbol("$".into()),
            Token::Identifier("".into()),
            Token::Str(" 5".into()),
            Token::Symbol("\"".into())
        ]
    );
    assert_eq!(
        parse(&tokens).unwrap(),
        cmd(
            "echo",
            vec![Tree::Quote(
                '"',
                vec![
                    Tree::String("cost ".into()),
                    Tree::Identifier("".into()),
                    Tree::String(" 5".into())
                ]
            )]
        )
    );
}

#[test]
fn operator_before_group_is_kept() {
    assert_eq!(
        tokenize("cat <(ls)").unwrap(),
        vec![
            Token::Literal("cat".into()),
            Token::Symbol("<".into()),
            Token::Symbol("(".into()),
            Token::Literal("ls".into()),
            Token::Symbol(")".into())
        ]
    );
}

#[test]
fn wildcard_is_one_argument() {
    let tokens = tokenize("ls ./src/*.rs").unwrap();
    assert_eq!(
        tokens,
        vec![Token::Literal("ls".into()), Token::Wildcard("./src/*.rs".into())]
    );
    assert_eq!(parse(&tokens).unwrap(), cmd("ls", vec![lit("./src/*.rs")]));
    assert_eq!(
        tokenize("*.rs **").unwrap(),
        vec![Token::Wildcard("*.rs".into()), Token::Wildcard("**".into())]
    );
}

#[test]
fn reserved_words_are_control_operators() {
    assert_eq!(
        tokenize("if then else fi iff").unwrap(),
        vec![
            Token::ControlOperator("if".into()),
            Token::ControlOperator("then".into()),
            Token::ControlOperator("else".into()),
            Token::ControlOperator("fi".into()),
            Token::Literal("iff".into())
        ]
    );
}

#[test]
fn unicode_letters_continue_a_word() {
    assert_eq!(
        tokenize("cat héllo/wörld").unwrap(),
        vec![Token::Literal("cat".into()), Token::Literal("héllo/wörld".into())]
    );
    assert_eq!(
        tokenize("echo $naïve").unwrap(),
        vec![
            Token::Literal("echo".into()),
            Token::Symbol("$".into()),
            Token::Identifier("naïve".into())
        ]
    );
}

#[test]
fn surrounding_whitespace_is_ignored() {
    assert_eq!(
        tokenize("  \t ls   # note  \n").unwrap(),
        vec![Token::Literal("ls".into()), Token::Comment("# note".into())]
    );
    assert_eq!(tokenize("   ").unwrap(), vec![]);
}

#[test]
fn comment_ends_at_newline() {
    assert_eq!(
        tokenize("# one\nls").unwrap(),
        vec![Token::Comment("# one".into()), Token::Literal("ls".into())]
    );
}

#[test]
fn redirections_pair_up() {
    assert_eq!(
        tokenize("a>>b<c<<d>(e)").unwrap(),
        vec![
            Token::Literal("a".into()),
            Token::Symbol(">>".into()),
            Token::Literal("b".into()),
            Token::Symbol("<".into()),
            Token::Literal("c".into()),
            Token::Symbol("<<".into()),
            Token::Literal("d".into()),
            Token::Symbol(">".into()),
            Token::Symbol("(".into()),
            Token::Literal("e".into()),
            Token::Symbol(")".into())
        ]
    );
}

#[test]
fn substitution_inside_subshell_inside_quote() {
    assert_eq!(
        tokenize(r#""a $(ls -a) b""#).unwrap(),
        vec![
            Token::Symbol("\"".into()),
            Token::Str("a ".into()),
            Token::Symbol("$".into()),
            Token::Symbol("(".into()),
            Token::Literal("ls".into()),
            Token::Literal("-a".into()),
            Token::Symbol(")".into()),
            Token::Str(" b".into()),
            Token::Symbol("\"".into())
        ]
    );
    assert_eq!(
        tokenize("echo $(cat $F)").unwrap(),
        vec![
            Token::Literal("echo".into()),
            Token::Symbol("$".into()),
            Token::Symbol("(".into()),
            Token::Literal("cat".into()),
            Token::Symbol("$".into()),
            Token::Identifier("F".into()),
            Token::Symbol(")".into())
        ]
    );
}

#[test]
fn quote_without_substitution_is_a_string() {
    assert_eq!(
        tree_of("echo 'a b'").unwrap(),
        cmd("echo", vec![Tree::String("'a b'".into())])
    );
    assert_eq!(
        tree_of(r#"echo """#).unwrap(),
        cmd("echo", vec![Tree::String("\"\"".into())])
    );
}

#[test]
fn quote_with_substitution_is_a_quote() {
    assert_eq!(
        tree_of(r#"echo "this is $VAR right here""#).unwrap(),
        cmd(
            "echo",
            vec![Tree::Quote(
                '"',
                vec![
                    Tree::String("this is ".into()),
                    Tree::Identifier("VAR".into()),
                    Tree::String(" right here".into())
                ]
            )]
        )
    );
    assert_eq!(
        tree_of(r#"echo "$(ls)""#).unwrap(),
        cmd(
            "echo",
            vec![Tree::Quote(
                '"',
                vec![
                    Tree::String("".into()),
                    Tree::Subshell(Box::new(cmd("ls", vec![]))),
                    Tree::String("".into())
                ]
            )]
        )
    );
}

#[test]
fn nested_subshells_nest_in_the_tree() {
    assert_eq!(
        tree_of("a $(b $(c))").unwrap(),
        cmd(
            "a",
            vec![Tree::Subshell(Box::new(cmd(
                "b",
                vec![Tree::Subshell(Box::new(cmd("c", vec![])))]
            )))]
        )
    );
}

#[test]
fn substitution_names_a_command() {
    assert_eq!(
        tree_of("$EDITOR file").unwrap(),
        Tree::Command {
            name: Box::new(Tree::Identifier("EDITOR".into())),
            args: vec![lit("file")]
        }
    );
}

#[test]
fn parse_errors() {
    assert_eq!(parse(&vec![]), Err(ParseError::UnexpectedEndOfInput));
    assert_eq!(tree_of("ls |"), Err(ParseError::UnexpectedEndOfInput));
    assert_eq!(tree_of("| ls"), Err(ParseError::InvalidCommandHead));
    assert_eq!(
        parse(&vec![Token::Literal("echo".into()), Token::Symbol("$".into()), Token::Literal("x".into())]),
        Err(ParseError::InvalidSubstitution)
    );
    assert_eq!(tree_of("ls )"), Err(ParseError::UnbalancedParenthesis));
    assert_eq!(tree_of("ls > out"), Err(ParseError::UnexpectedToken));
    assert_eq!(
        parse(&vec![Token::Literal("echo".into()), Token::Symbol("$".into()), Token::Symbol("(".into()), Token::Literal("ls".into())]),
        Err(ParseError::UnbalancedParenthesis)
    );
    assert_eq!(
        parse(&vec![Token::Literal("echo".into()), Token::Symbol("\"".into()), Token::Str("abc".into())]),
        Err(ParseError::UnbalancedQuote)
    );
    assert_eq!(
        parse(&vec![
            Token::Literal("echo".into()),
            Token::Symbol("\"".into()),
            Token::Str("abc".into()),
            Token::Literal("x".into())
        ]),
        Err(ParseError::InvalidQuoteContents)
    );
}

#[test]
fn token_accessors() {
    let mut t = Token::Wildcard("*.rs".into());
    assert_eq!(t.inner(), "*.rs");
    t.inner_mut().push_str(".bak");
    assert_eq!(t, Token::Wildcard("*.rs.bak".into()));
    assert_eq!(t.inner_to_string(), Token::Wildcard("*.rs.bak".into()));
}

fn text_of(t: &Token) -> String {
    t.inner().clone()
}

#[test]
fn tokens_spell_the_line_without_whitespace() {
    for line in [
        "ls -l 'file name' | grep test $VAR # This is a comment",
        r#"echo -e "Here are the contents of the directory: [\n$(ls -a)\n]""#,
        "cat << EOF > file | wc -c",
        "  a\tb  ",
    ] {
        let spelled: String = tokenize(line).unwrap().iter().map(text_of).collect();
        let mut rest = spelled.chars().peekable();
        for c in line.trim().chars() {
            if rest.peek() == Some(&c) {
                rest.next();
            } else {
                assert!(c.is_whitespace(), "{c:?} was dropped from {line:?}");
            }
        }
        assert_eq!(rest.next(), None);
    }
    assert_eq!(
        tokenize("echo 'a  b'").unwrap().iter().map(text_of).collect::<String>(),
        "echo'a  b'"
    );
    assert_eq!(
        tokenize("ls # a  b\nx").unwrap().iter().map(text_of).collect::<String>(),
        "ls# a  bx"
    );
}

#[test]
fn token_text_tokenizes_to_itself() {
    let tokens = tokenize("ls ./src/*.rs >> out; fi | $(x) # note").unwrap();
    for t in tokens {
        match t {
            Token::Identifier(_) | Token::Str(_) => {}
            _ => {
                if let Ok(again) = tokenize(t.inner()) {
                    assert_eq!(again, vec![t.clone()]);
                }
            }
        }
    }
    assert_eq!(tokenize("VAR").unwrap(), vec![Token::Literal("VAR".into())]);
}

#[test]
fn unicode_whitespace_separates_words() {
    assert_eq!(
        tokenize("a\u{3000}b\u{85}c\u{a0}d").unwrap(),
        vec![
            Token::Literal("a".into()),
            Token::Literal("b".into()),
            Token::Literal("c".into()),
            Token::Literal("d".into())
        ]
    );
}
