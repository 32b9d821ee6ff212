use lang::lexer::Token as Tok;
use lang::parser::Parse;
use lang::parser::Tree::{Command, Literal, Pipe, String, Subshell};

#[test]
fn parser_command_arguments() {
    // Programs without arguments
    assert_eq!(
        vec![Tok::Literal("~/bin/ansi_colors".into())].parse().unwrap(),
        Command {
            name: Box::new(Literal("~/bin/ansi_colors".into())),
            args: vec![],
        }
    );
    // Programs with arguments
    assert_eq!(
        vec![
            Tok::Literal("ls".into()),
            Tok::Literal("-F".into()),
            Tok::Literal("--group-directories-first".into())
        ]
        .parse()
        .unwrap(),
        Command {
            name: Box::new(Literal("ls".into())),
            args: vec![Literal("-F".into()), Literal("--group-directories-first".into())],
        }
    );
    assert_eq!(
        vec![
            Tok::Literal("xclip".into()),
            Tok::Literal("-selection".into()),
            Tok::Literal("c".into()),
            Tok::Literal("-o".into())
        ]
        .parse()
        .unwrap(),
        Command {
            name: Box::new(Literal("xclip".into())),
            args: vec![Literal("-selection".into()), Literal("c".into()), Literal("-o".into())],
        }
    );
}

#[test]
fn parser_quotes() {
    // String with no spaces inside
    assert_eq!(
        vec![
            Tok::Literal("grep".into()),
            Tok::Symbol("\"".into()),
            Tok::Str(":Zone.Identifier".into()),
            Tok::Symbol("\"".into())
        ]
        .parse()
        .unwrap(),
        Command {
            name: Box::new(Literal("grep".into())),
            args: vec![String(r#"":Zone.Identifier""#.into())],
        }
    );

    assert_eq!(
        vec![
            Tok::Literal("echo".into()),
            Tok::Symbol("\"".into()),
            Tok::Str("My name is Cole McAnelly".into()),
            Tok::Symbol("\"".into())
        ]
        .parse()
        .unwrap(),
        Command {
            name: Box::new(Literal("echo".into())),
            args: vec![String(r#""My name is Cole McAnelly""#.into())],
        }
    );
}

#[test]
fn parser_pipes() {
    // Pipes with spaces in between
    assert_eq!(
        vec![
            Tok::Literal("history".into()),
            Tok::Symbol("|".into()),
            Tok::Literal("grep".into()),
            Tok::Literal("git".into()),
            Tok::Symbol("|".into()),
            Tok::Literal("xargs".into()),
            Tok::Literal("rm".into())
        ]
        .parse()
        .unwrap(),
        Pipe(
            Box::new(Pipe(
                Box::new(Command {
                    name: Box::new(Literal("history".into())),
                    args: vec![]
                }),
                Box::new(Command {
                    name: Box::new(Literal("grep".into())),
                    args: vec![Literal("git".into())]
                })
            )),
            Box::new(Command {
                name: Box::new(Literal("xargs".into())),
                args: vec![Literal("rm".into())]
            })
        )
    );
}

#[test]
fn parser_parenthesis() {
    assert_eq!(
        vec![
            Tok::Literal("echo".into()),
            Tok::Symbol("$".into()),
            Tok::Symbol("(".into()),
            Tok::Literal("ls".into()),
            Tok::Literal("-a".into()),
            Tok::Symbol(")".into())
        ]
        .parse()
        .unwrap(),
        Command {
            name: Box::new(Literal("echo".into())),
            args: vec![Subshell(Box::new(Command {
                name: Box::new(Literal("ls".into())),
                args: vec![Literal("-a".into())],
            }))],
        }
    );
}

#[test]
fn parser_complex() {
    assert_eq!(
        vec![
            Tok::Literal("find".into()),
            Tok::Literal(".".into()),
            Tok::Literal("-type".into()),
            Tok::Literal("f".into()),
            Tok::Symbol("|".into()),
            Tok::Literal("grep".into()),
            Tok::Symbol("\"".into()),
            Tok::Str(":Zone.Identifier".into()),
            Tok::Symbol("\"".into()),
            Tok::Symbol("|".into()),
            Tok::Literal("xargs".into()),
            Tok::Literal("rm".into())
        ]
        .parse()
        .unwrap(),
        Pipe(
            Box::new(Pipe(
                Box::new(Command {
                    name: Box::new(Literal("find".into())),
                    args: vec![Literal(".".into()), Literal("-type".into()), Literal("f".into())],
                }),
                Box::new(Command {
                    name: Box::new(Literal("grep".into())),
                    args: vec![String(r#"":Zone.Identifier""#.into())],
                }),
            )),
            Box::new(Command {
                name: Box::new(Literal("xargs".into())),
                args: vec![Literal("rm".into())],
            }),
        )
    );
}
