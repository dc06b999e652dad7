use mini_interp::{
    parse, parse_assignment, parse_ignore, parse_print, parse_statement, parse_variable, Error,
    Interpreter, Lexer, Statement, Token, TokenType,
};

fn run(src: &str) -> (String, Result<(), Error>) {
    let mut interp = Interpreter::new(Lexer::new(src.to_string()));
    let r = interp.execute();
    (interp.output().clone(), r)
}

#[test]
fn scenario_greeting() {
    assert_eq!(run("$greeting = \"hello\"\nprint($greeting)"), ("hello\n".to_string(), Ok(())));
}

#[test]
fn scenario_reassignment() {
    assert_eq!(run("$a = \"1\"\n$a = \"2\"\nprint($a)\n"), ("2\n".to_string(), Ok(())));
}

#[test]
fn scenario_missing_variable() {
    assert_eq!(
        run("print($missing)"),
        (String::new(), Err(Error::UnboundVariable { line: 0 }))
    );
}

#[test]
fn scenario_two_statements_on_one_line() {
    assert_eq!(run("$x = \"a\" print($x)"), ("a\n".to_string(), Ok(())));
}

#[test]
fn empty_file_runs_and_prints_nothing() {
    assert_eq!(run(""), (String::new(), Ok(())));
}

#[test]
fn blank_lines_only_run_and_print_nothing() {
    assert_eq!(run("\n\n\n"), (String::new(), Ok(())));
}

#[test]
fn unterminated_literal_is_an_error() {
    assert_eq!(
        run("$x = \"abc"),
        (String::new(), Err(Error::UnterminatedString { line: 0, col: 6 }))
    );
}

#[test]
fn literal_does_not_span_lines() {
    assert_eq!(
        run("$x = \"ab\ncd\"\nprint($x)"),
        (String::new(), Err(Error::UnterminatedString { line: 0, col: 6 }))
    );
}

#[test]
fn literal_is_printed_verbatim() {
    assert_eq!(
        run("$x = \"a b\t$(=)!?\u{e9}\\n\"\nprint($x)\n"),
        ("a b\t$(=)!?\u{e9}\\n\n".to_string(), Ok(()))
    );
}

#[test]
fn empty_literal() {
    assert_eq!(run("$x = \"\" print($x)"), ("\n".to_string(), Ok(())));
}

#[test]
fn statements_run_in_text_order() {
    assert_eq!(
        run("$a = \"1\" $b = \"2\"\nprint($b)\n\n  print($a)\nprint($b)"),
        ("2\n1\n2\n".to_string(), Ok(()))
    );
    assert_eq!(
        run("$a = \"1\" $b = \"2\"\nprint($b)\n\nprint($a)\nprint($b)"),
        ("2\n1\n2\n".to_string(), Ok(()))
    );
}

#[test]
fn leading_blank_at_file_start_is_an_error() {
    assert_eq!(
        run(" print($a)"),
        (String::new(), Err(Error::UnexpectedStatement { found: TokenType::Ignored, line: 0 }))
    );
}

#[test]
fn output_before_an_unbound_print_is_kept() {
    assert_eq!(
        run("$a = \"1\" print($a)\nprint($b) print($a)"),
        ("1\n".to_string(), Err(Error::UnboundVariable { line: 1 }))
    );
}

#[test]
fn parse_error_runs_nothing() {
    assert_eq!(
        run("$a = \"1\" print($a) $"),
        (
            String::new(),
            Err(Error::UnexpectedToken { expected: TokenType::Name, found: TokenType::Eof, line: 0 })
        )
    );
}

#[test]
fn unexpected_character() {
    assert_eq!(
        run("$x = 5"),
        (String::new(), Err(Error::UnexpectedChar { ch: '5', line: 0, col: 6 }))
    );
}

#[test]
fn punctuation_between_upper_and_lower_case_is_rejected() {
    assert_eq!(
        run("\n  [x"),
        (String::new(), Err(Error::UnexpectedStatement { found: TokenType::Ignored, line: 1 }))
    );
    assert_eq!(
        run("\n[x"),
        (String::new(), Err(Error::UnexpectedChar { ch: '[', line: 1, col: 1 }))
    );
}

#[test]
fn statement_must_start_with_print_or_dollar() {
    assert_eq!(
        run("= \"a\""),
        (String::new(), Err(Error::UnexpectedStatement { found: TokenType::Equal, line: 0 }))
    );
}

#[test]
fn print_needs_brackets() {
    assert_eq!(
        run("print $x"),
        (
            String::new(),
            Err(Error::UnexpectedToken {
                expected: TokenType::LeftBracket,
                found: TokenType::VarPrefix,
                line: 0
            })
        )
    );
}

#[test]
fn keyword_is_not_a_variable_name() {
    assert_eq!(
        run("$print = \"k\""),
        (
            String::new(),
            Err(Error::UnexpectedToken {
                expected: TokenType::Name,
                found: TokenType::Print,
                line: 0
            })
        )
    );
}

#[test]
fn newlines_separate_like_spaces() {
    assert_eq!(run("$\nx\n=\n\"1\"\nprint\n(\n$x\n)\n"), ("1\n".to_string(), Ok(())));
    assert_eq!(run("$x = \"1\"\r\nprint($x)\r\n"), ("1\n".to_string(), Ok(())));
}

#[test]
fn names_with_digits_and_underscores() {
    assert_eq!(run("$_a1 = \"z\" print($_a1)"), ("z\n".to_string(), Ok(())));
}

#[test]
fn lexer_token_stream() {
    let mut lexer = Lexer::new("print($x_1)  \"s t\"".to_string());
    let t = lexer.get_next_token().unwrap();
    assert_eq!((t.0, t.1, t.2), (TokenType::Print, 0, Some("print".to_string())));
    assert_eq!(lexer.get_next_token().unwrap().0, TokenType::LeftBracket);
    assert_eq!(lexer.get_next_token().unwrap().0, TokenType::VarPrefix);
    let t = lexer.get_next_token().unwrap();
    assert_eq!((t.0, t.2), (TokenType::Name, Some("x_1".to_string())));
    assert_eq!(lexer.get_next_token().unwrap().0, TokenType::RightBracket);
    assert_eq!(lexer.get_next_token().unwrap().0, TokenType::Ignored);
    assert_eq!(lexer.get_next_token().unwrap().0, TokenType::Ignored);
    let t = lexer.get_next_token().unwrap();
    assert_eq!((t.0, t.2), (TokenType::String, Some("s t".to_string())));
    assert_eq!(lexer.get_next_token().unwrap().0, TokenType::Eof);
    assert_eq!(lexer.get_next_token().unwrap().0, TokenType::Eof);
}

#[test]
fn token_lines_count_from_zero() {
    let mut lexer = Lexer::new("\n\n$\n=".to_string());
    let t = lexer.get_next_token().unwrap();
    assert_eq!((t.0, t.1), (TokenType::VarPrefix, 2));
    let t = lexer.get_next_token().unwrap();
    assert_eq!((t.0, t.1), (TokenType::Equal, 3));
}

#[test]
fn lookahead_does_not_consume() {
    let mut lexer = Lexer::new("$x".to_string());
    assert_eq!(lexer.lookahead().unwrap().0, TokenType::VarPrefix);
    assert_eq!(lexer.lookahead().unwrap().0, TokenType::VarPrefix);
    assert_eq!(lexer.get_next_token().unwrap().0, TokenType::VarPrefix);
    assert_eq!(lexer.lookahead().unwrap().2, Some("x".to_string()));
    assert_eq!(lexer.next_token_is(TokenType::Name).unwrap().2, Some("x".to_string()));
    assert_eq!(lexer.get_next_token().unwrap().0, TokenType::Eof);
}

#[test]
fn next_token_is_checks_the_kind() {
    let mut lexer = Lexer::new("\n (".to_string());
    assert_eq!(
        lexer.next_token_is(TokenType::LeftBracket).unwrap_err(),
        Error::UnexpectedToken {
            expected: TokenType::LeftBracket,
            found: TokenType::Ignored,
            line: 1
        }
    );
}

#[test]
fn parse_ignore_skips_blanks() {
    let mut lexer = Lexer::new(" \t \n  =".to_string());
    assert_eq!(parse_ignore(&mut lexer), Ok(()));
    assert_eq!(lexer.get_next_token().unwrap().0, TokenType::Equal);
    let mut lexer = Lexer::new("=".to_string());
    assert_eq!(parse_ignore(&mut lexer), Ok(()));
    assert_eq!(lexer.get_next_token().unwrap().0, TokenType::Equal);
}

#[test]
fn parse_variable_and_assignment_lines() {
    let mut lexer = Lexer::new("\n$name   ".to_string());
    let v = parse_variable(&mut lexer).unwrap();
    assert_eq!((v.line, v.name.as_str()), (1, "name"));
    assert_eq!(lexer.get_next_token().unwrap().0, TokenType::Eof);

    let mut lexer = Lexer::new("\n\n$v =\n \"text\" ".to_string());
    let a = parse_assignment(&mut lexer).unwrap();
    assert_eq!((a.line, a.var.line, a.var.name.as_str(), a.string.as_str()), (2, 2, "v", "text"));
}

#[test]
fn parse_print_line_is_keyword_line() {
    let mut lexer = Lexer::new("print\n(\n$v)".to_string());
    let p = parse_print(&mut lexer).unwrap();
    assert_eq!((p.line, p.var.line, p.var.name.as_str()), (0, 2, "v"));
}

#[test]
fn parse_statement_dispatches_on_first_token() {
    let mut lexer = Lexer::new("print($a) $b = \"c\"".to_string());
    assert!(matches!(parse_statement(&mut lexer), Ok(Statement::Print(_))));
    assert!(matches!(parse_statement(&mut lexer), Ok(Statement::Assignment(_))));
    assert_eq!(lexer.get_next_token().unwrap().0, TokenType::Eof);
}

#[test]
fn parse_keeps_statement_order() {
    let mut lexer = Lexer::new("$a = \"1\"\nprint($a) $b = \"2\" print($b)\n".to_string());
    let stmts = parse(&mut lexer).unwrap();
    let names: Vec<String> = stmts
        .iter()
        .map(|s| match s {
            Statement::Assignment(a) => format!("={}", a.var.name),
            Statement::Print(p) => format!("p{}", p.var.name),
        })
        .collect();
    assert_eq!(names, vec!["=a", "pa", "=b", "pb"]);
}

#[test]
fn statement_resolve_binds_and_prints() {
    let mut lexer = Lexer::new("$k = \"v\" print($k)".to_string());
    let first = parse_statement(&mut lexer).unwrap();
    let second = parse_statement(&mut lexer).unwrap();
    let mut interp = Interpreter::new(Lexer::new(String::new()));
    assert_eq!(second.resolve(&mut interp), Err(Error::UnboundVariable { line: 0 }));
    assert_eq!(first.resolve(&mut interp), Ok(()));
    assert_eq!(second.resolve(&mut interp), Ok(()));
    assert_eq!(interp.output().as_str(), "v\n");
}

#[test]
fn execute_twice_runs_the_source_once() {
    let mut interp = Interpreter::new(Lexer::new("$a = \"x\" print($a)".to_string()));
    assert_eq!(interp.execute(), Ok(()));
    assert_eq!(interp.execute(), Ok(()));
    assert_eq!(interp.output().as_str(), "x\n");
}

#[test]
fn duplicate_copies_every_field() {
    let t = Token(TokenType::String, 4, Some("abc".to_string()));
    let d = t.duplicate();
    assert_eq!((d.0, d.1, d.2), (TokenType::String, 4, Some("abc".to_string())));
}
