use raxio::error::ParsingError;
use raxio::lexer::Lexer;
use raxio::parser::{Parser, Stmt};
use raxio::term::Expr;

fn var(name: &str) -> Expr {
    Expr::Variable {
        iden: name.to_string(),
    }
}

fn fun(head: &str, args: Vec<Expr>) -> Expr {
    Expr::Functor {
        iden: head.to_string(),
        args,
    }
}

#[test]
fn parse_demorgan() {
    let input_string = "def demorgan as neg(or(p, q)) => and(neg(p), neg(q))";
    let mut lexer = Lexer::new();
    lexer.lex(input_string);

    let mut parser = Parser::new();
    let res = parser.parse(&mut lexer);

    assert!(!res.is_err());
    assert!(parser.stmts.len() == 1);

    let test_stmt = Stmt::DefineStmt {
        iden: "demorgan".to_string(),
        left: fun("neg", vec![fun("or", vec![var("p"), var("q")])]),
        right: fun(
            "and",
            vec![fun("neg", vec![var("p")]), fun("neg", vec![var("q")])],
        ),
    };

    let parsed_stmt = parser.stmts.swap_remove(0);
    assert_eq!(parsed_stmt, test_stmt);
}

#[test]
fn parse_multiple_stmts() {
    let input_string = "f(x, y, z) def x as x(z) => z(x) end \"hello world\"";
    let mut lexer = Lexer::new();
    lexer.lex(input_string);

    let mut parser = Parser::new();
    let res = parser.parse(&mut lexer);

    assert!(!res.is_err());
    assert!(parser.stmts.len() == 3);

    assert_eq!(
        parser.stmts[0],
        Stmt::ExprStmt(fun("f", vec![var("x"), var("y"), var("z")]))
    );
    assert_eq!(
        parser.stmts[1],
        Stmt::DefineStmt {
            iden: "x".to_string(),
            left: fun("x", vec![var("z")]),
            right: fun("z", vec![var("x")]),
        }
    );
    assert_eq!(
        parser.stmts[2],
        Stmt::EndStmt(Some("hello world".to_string()))
    );
}

#[test]
fn trigger_definition_error() {
    let input_string = "def x x(z) => z(x)";
    let mut lexer = Lexer::new();
    lexer.lex(input_string);

    let mut parser = Parser::new();
    let res = parser.parse(&mut lexer);

    assert!(res.is_err());
}

#[test]
fn trigger_rule_error() {
    let input_string = "def f as x(z) = z(x)";
    let mut lexer = Lexer::new();
    lexer.lex(input_string);

    let mut parser = Parser::new();
    let res = parser.parse(&mut lexer);

    assert!(res.is_err());
}

#[test]
fn parse_infix_precedence() {
    let mut lexer = Lexer::new();
    lexer.lex("a + b * c - d");
    let mut parser = Parser::new();
    let res = parser.parse(&mut lexer);
    assert!(res.is_ok());
    assert_eq!(
        parser.stmts[0],
        Stmt::ExprStmt(fun(
            "sub",
            vec![
                fun("add", vec![var("a"), fun("mul", vec![var("b"), var("c")])]),
                var("d"),
            ]
        ))
    );
}

#[test]
fn parse_group_and_numbers() {
    let mut lexer = Lexer::new();
    lexer.lex("(5 + 6) * 3");
    let mut parser = Parser::new();
    let res = parser.parse(&mut lexer);
    assert!(res.is_ok());
    assert_eq!(
        parser.stmts[0],
        Stmt::ExprStmt(fun(
            "mul",
            vec![
                fun("group", vec![fun("add", vec![var("5"), var("6")])]),
                var("3"),
            ]
        ))
    );
}

#[test]
fn parse_apply_statement() {
    let mut lexer = Lexer::new();
    lexer.lex("swap at 0");
    let mut parser = Parser::new();
    let res = parser.parse(&mut lexer);
    assert!(res.is_ok());
    assert_eq!(
        parser.stmts[0],
        Stmt::ApplyStmt {
            iden: "swap".to_string(),
            depth: 0,
        }
    );
}

#[test]
fn parse_inline_rule_statement() {
    let mut lexer = Lexer::new();
    lexer.lex("f(x) => g(x) at 2");
    let mut parser = Parser::new();
    let res = parser.parse(&mut lexer);
    assert!(res.is_ok());
    assert_eq!(
        parser.stmts[0],
        Stmt::RuleStmt {
            left: fun("f", vec![var("x")]),
            right: fun("g", vec![var("x")]),
            depth: 2,
        }
    );
}

#[test]
fn parse_missing_depth_value() {
    let mut lexer = Lexer::new();
    lexer.lex("f(x) => g(x) at");
    let mut parser = Parser::new();
    let res = parser.parse(&mut lexer);
    assert!(matches!(res, Err(ParsingError::ExpectDepthValue)));
}

#[test]
fn parse_missing_number_after_apply() {
    let mut lexer = Lexer::new();
    lexer.lex("swap at end");
    let mut parser = Parser::new();
    let res = parser.parse(&mut lexer);
    assert!(matches!(res, Err(ParsingError::ExpectTokenAfter { .. })));
}

#[test]
fn parse_missing_at_keyword() {
    let mut lexer = Lexer::new();
    lexer.lex("f(x) => g(x) 0");
    let mut parser = Parser::new();
    let res = parser.parse(&mut lexer);
    assert!(matches!(res, Err(ParsingError::ExpectToken { .. })));
}

#[test]
fn parse_unexpected_token() {
    let mut lexer = Lexer::new();
    lexer.lex(", f(x)");
    let mut parser = Parser::new();
    let res = parser.parse(&mut lexer);
    assert!(matches!(res, Err(ParsingError::UnexpectedToken { .. })));
}

#[test]
fn parse_arity_zero_functor() {
    let mut lexer = Lexer::new();
    lexer.lex("f()");
    let mut parser = Parser::new();
    let res = parser.parse(&mut lexer);
    assert!(res.is_ok());
    assert_eq!(parser.stmts[0], Stmt::ExprStmt(fun("f", vec![])));
}

#[test]
fn parse_end_without_path() {
    let mut lexer = Lexer::new();
    lexer.lex("end");
    let mut parser = Parser::new();
    let res = parser.parse(&mut lexer);
    assert!(res.is_ok());
    assert_eq!(parser.stmts[0], Stmt::EndStmt(None));
}
