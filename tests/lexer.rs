use lang::lexer::Token::{Comment, Identifier, Literal, Str, Symbol, Wildcard};
use lang::lexer::{Token, Tokenize};

fn toks(line: &str) -> Vec<Token> {
    line.tokenize().unwrap()
}

#[test]
fn lexer_command_arguments() {
    // Programs without arguments
    assert_eq!(toks("~/bin/ansi_colors"), vec![Literal("~/bin/ansi_colors".into())]);
    // Programs with arguments
    assert_eq!(
        toks("ls -F --group-directories-first"),
        vec![
            Literal("ls".into()),
            Literal("-F".into()),
            Literal("--group-directories-first".into())
        ]
    );
    assert_eq!(
        toks("xclip -selection c -o"),
        vec![
            Literal("xclip".into()),
            Literal("-selection".into()),
            Literal("c".into()),
            Literal("-o".into())
        ]
    );
}

#[test]
fn tokenize_trait() {
    assert_eq!(
        "~/bin/ansi_colors".tokenize().unwrap(),
        vec![Literal("~/bin/ansi_colors".into())]
    );
    assert_eq!(
        String::from("~/bin/ansi_colors").tokenize().unwrap(),
        vec![Literal("~/bin/ansi_colors".into())]
    );
}

#[test]
fn lexer_quotes() {
    // String with no spaces inside
    assert_eq!(
        toks(r#"grep ":Zone.Identifier""#),
        vec![
            Literal("grep".into()),
            Symbol("\"".into()),
            Str(":Zone.Identifier".into()),
            Symbol("\"".into())
        ]
    );

    assert_eq!(
        toks(r#"echo "My name is Cole McAnelly""#),
        vec![
            Literal("echo".into()),
            Symbol("\"".into()),
            Str("My name is Cole McAnelly".into()),
            Symbol("\"".into())
        ]
    );

    // Single quotes with assignment operator
    assert_eq!(
        toks("alias colors='~/bin/ansi_colors'"),
        vec![
            Literal("alias".into()),
            Literal("colors".into()),
            Symbol("=".into()),
            Symbol("\'".into()),
            Str("~/bin/ansi_colors".into()),
            Symbol("\'".into())
        ]
    );

    // Double quoted String with internal spaces, and assignment operator
    assert_eq!(
        toks(r#"MY_VAR="this is the value of my variable""#),
        vec![
            Literal("MY_VAR".into()),
            Symbol("=".into()),
            Symbol("\"".into()),
            Str("this is the value of my variable".into()),
            Symbol("\"".into())
        ]
    );
}

#[test]
fn lexer_pipes() {
    // Pipes with spaces in between
    assert_eq!(
        toks(r#"history | grep git | xargs rm"#),
        vec![
            Literal("history".into()),
            Symbol("|".into()),
            Literal("grep".into()),
            Literal("git".into()),
            Symbol("|".into()),
            Literal("xargs".into()),
            Literal("rm".into())
        ]
    );
    assert_eq!(
        toks("ls ./src/*.rs | xargs basename -s .rs"),
        vec![
            Literal("ls".into()),
            Wildcard("./src/*.rs".into()),
            Symbol("|".into()),
            Literal("xargs".into()),
            Literal("basename".into()),
            Literal("-s".into()),
            Literal(".rs".into())
        ]
    );

    // Pipes without spaces
    assert_eq!(
        toks(r#"history|grep git|xargs rm"#),
        vec![
            Literal("history".into()),
            Symbol("|".into()),
            Literal("grep".into()),
            Literal("git".into()),
            Symbol("|".into()),
            Literal("xargs".into()),
            Literal("rm".into())
        ]
    );
}

#[test]
fn lexer_io_redirections() {
    assert_eq!(
        toks(r#"cat << EOF > file | wc -c | tr -d " " > file2"#),
        vec![
            Literal("cat".into()),
            Symbol("<<".into()),
            Literal("EOF".into()),
            Symbol(">".into()),
            Literal("file".into()),
            Symbol("|".into()),
            Literal("wc".into()),
            Literal("-c".into()),
            Symbol("|".into()),
            Literal("tr".into()),
            Literal("-d".into()),
            Symbol("\"".into()),
            Str(" ".into()),
            Symbol("\"".into()),
            Symbol(">".into()),
            Literal("file2".into())
        ]
    );

    assert_eq!(
        toks(r#"echo "This is Cole McAnelly's file, and I am writing my name inside of it!!" >> my_file"#),
        vec![
            Literal("echo".into()),
            Symbol("\"".into()),
            Str("This is Cole McAnelly's file, and I am writing my name inside of it!!".into()),
            Symbol("\"".into()),
            Symbol(">>".into()),
            Literal("my_file".into())
        ]
    )
}

#[test]
fn lexer_variables() {
    assert_eq!(
        toks("echo $VAR"),
        vec![Literal("echo".into()), Symbol("$".into()), Identifier("VAR".into())]
    );
    assert_eq!(
        toks(r#"echo "this is $VAR right here""#),
        vec![
            Literal("echo".into()),
            Symbol("\"".into()),
            Str("this is ".into()),
            Symbol("$".into()),
            Identifier("VAR".into()),
            Str(" right here".into()),
            Symbol("\"".into())
        ]
    );
}

#[test]
fn lexer_parenthesis() {
    assert_eq!(
        toks("echo $(ls -a)"),
        vec![
            Literal("echo".into()),
            Symbol("$".into()),
            Symbol("(".into()),
            Literal("ls".into()),
            Literal("-a".into()),
            Symbol(")".into())
        ]
    );
    assert_eq!(
        toks(r#"echo -e "Here are the contents of the directory: [\n$(ls -a)\n]""#),
        vec![
            Literal("echo".into()),
            Literal("-e".into()),
            Symbol("\"".into()),
            Str(r"Here are the contents of the directory: [\n".into()),
            Symbol("$".into()),
            Symbol("(".into()),
            Literal("ls".into()),
            Literal("-a".into()),
            Symbol(")".into()),
            Str(r"\n]".into()),
            Symbol("\"".into()),
        ]
    );
    assert_eq!(
        toks(r#"echo "$(ls -a)""#),
        vec![
            Literal("echo".into()),
            Symbol("\"".into()),
            Str("".into()),
            Symbol("$".into()),
            Symbol("(".into()),
            Literal("ls".into()),
            Literal("-a".into()),
            Symbol(")".into()),
            Str("".into()),
            Symbol("\"".into()),
        ]
    );
}

#[test]
fn lexer_complex() {
    assert_eq!(
        toks("ls -l 'file name' | grep test $VAR # This is a comment"),
        vec![
            Literal("ls".into()),
            Literal("-l".into()),
            Symbol("\'".into()),
            Str("file name".into()),
            Symbol("\'".into()),
            Symbol("|".into()),
            Literal("grep".into()),
            Literal("test".into()),
            Symbol("$".into()),
            Identifier("VAR".into()),
            Comment("# This is a comment".into())
        ]
    );

    assert_eq!(
        toks(r#"find . -type f | grep ":Zone.Identifier" | xargs rm"#),
        vec![
            Literal("find".into()),
            Literal(".".into()),
            Literal("-type".into()),
            Literal("f".into()),
            Symbol("|".into()),
            Literal("grep".into()),
            Symbol("\"".into()),
            Str(":Zone.Identifier".into()),
            Symbol("\"".into()),
            Symbol("|".into()),
            Literal("xargs".into()),
            Literal("rm".into())
        ]
    );
}
