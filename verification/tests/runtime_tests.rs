use raxio::lexer::Lexer;
use raxio::parser::Parser;
use raxio::runtime::{Env, StepEffect};
use raxio::term::Expr;

fn var(name: &str) -> Expr {
    Expr::Variable {
        iden: name.to_string(),
    }
}

fn fun(head: &str, args: Vec<Expr>) -> Expr {
    Expr::Functor {
        iden: head.to_string(),
        args,
    }
}

fn run_script(input: &str) -> (Env, Vec<(String, String)>) {
    let mut lexer = Lexer::new();
    lexer.lex(input);
    assert!(lexer.errors.is_empty());
    let mut parser = Parser::new();
    let res = parser.parse(&mut lexer);
    assert!(res.is_ok());
    let mut env = Env::new();
    let exports = env.interpret(parser.stmts);
    (env, exports)
}

#[test]
fn runtime_test() {
    let input_string = "
            f(A)
            f(x) => g(x, x) at 0
            g(x, x) => g(f(x), f(x)) at 0
        ";
    let mut lexer = Lexer::new();
    lexer.lex(input_string);

    let mut parser = Parser::new();
    let _ = parser.parse(&mut lexer);

    let mut env = Env::new();
    let exports = env.interpret(parser.stmts);

    assert!(exports.is_empty());
    assert_eq!(
        env.get_expr(),
        Some(&fun(
            "g",
            vec![fun("f", vec![var("A")]), fun("f", vec![var("A")])]
        ))
    );
}

#[test]
fn scenario_swap() {
    let (env, _) = run_script("def swap as f(a, b) => f(b, a)    f(1, 0)    swap at 0");
    assert_eq!(env.get_expr(), Some(&fun("f", vec![var("0"), var("1")])));
}

#[test]
fn scenario_depth_traversal() {
    let (env, _) = run_script("def double as f(x) => g(x, x)    f(f(A))    double at 1");
    assert_eq!(
        env.get_expr(),
        Some(&fun("f", vec![fun("g", vec![var("A"), var("A")])]))
    );
}

#[test]
fn scenario_bare_variable_pattern() {
    // Only immediate arguments that are variables of the pattern's own name
    // become the template; other arguments, nested functors included, stay.
    let (env, _) = run_script("def tag as x => t(x)    h(x, B)    tag at 0");
    assert_eq!(
        env.get_expr(),
        Some(&fun("h", vec![fun("t", vec![var("x")]), var("B")]))
    );
}

#[test]
fn scenario_no_match_is_silent() {
    let (env, _) = run_script("f(A)    g(x) => h(x) at 0");
    assert_eq!(env.get_expr(), Some(&fun("f", vec![var("A")])));
}

#[test]
fn scenario_undo() {
    let (mut env, _) = run_script("f(A)    f(x) => g(x, x) at 0    g(a, b) => h(a) at 0");
    assert_eq!(env.get_expr(), Some(&fun("h", vec![var("A")])));
    env.pop_expr();
    assert_eq!(env.get_expr(), Some(&fun("g", vec![var("A"), var("A")])));
    env.pop_expr();
    assert_eq!(env.get_expr(), Some(&fun("f", vec![var("A")])));
    assert_eq!(env.history.len(), 1);
    assert_eq!(env.derivation_history.len(), 0);
    // The anchor itself is not poppable.
    env.pop_expr();
    assert_eq!(env.history.len(), 1);
}

#[test]
fn scenario_infix_sugar_round_trip() {
    let (env, _) = run_script("def comm as a + b => b + a    x + y    comm at 0");
    let top = env.get_expr().unwrap();
    assert_eq!(top.to_string(), "y + x");
    assert_eq!(top.to_prefix_string(), "add(y, x)");
}

#[test]
fn scenario_transcript_export() {
    let (env, exports) = run_script("f(A)    f(x) => g(x) at 0    end \"out.txt\"");
    assert_eq!(exports.len(), 1);
    assert_eq!(exports[0].0, "out.txt");
    assert_eq!(
        exports[0].1,
        "Start pattern matching on f(A)\n\n1. Applying rule: f(x) => g(x) at depth 0, results in:\n    g(A)\n\nResult: g(A)"
    );
    assert!(env.history.is_empty());
    assert!(!env.is_matching);
}

#[test]
fn transcript_written_even_without_rewrites() {
    let (_, exports) = run_script("f(A)    end \"t\"");
    assert_eq!(exports.len(), 1);
    assert_eq!(exports[0].1, "Start pattern matching on f(A)\n\nResult: f(A)");
}

#[test]
fn history_and_derivation_stay_coupled() {
    let mut lexer = Lexer::new();
    lexer.lex("def swap as f(a, b) => f(b, a)    f(1, 0)    swap at 0    f(a, b) => f(b, b) at 0    end");
    let mut parser = Parser::new();
    assert!(parser.parse(&mut lexer).is_ok());
    let mut env = Env::new();
    for stmt in parser.stmts {
        let _ = env.interpret_stmt(stmt);
        assert_eq!(env.is_matching, !env.history.is_empty());
        if env.history.is_empty() {
            assert!(env.derivation_history.is_empty());
        } else {
            assert_eq!(env.derivation_history.len(), env.history.len() - 1);
        }
    }
    assert!(!env.is_matching);
}

#[test]
fn rules_survive_sessions() {
    let (mut env, _) = run_script("def swap as f(a, b) => f(b, a)    f(1, 0)    swap at 0    end");
    assert!(!env.is_matching);
    let mut lexer = Lexer::new();
    lexer.lex("f(A, B)    swap at 0");
    let mut parser = Parser::new();
    assert!(parser.parse(&mut lexer).is_ok());
    let _ = env.interpret(parser.stmts);
    assert_eq!(env.get_expr(), Some(&fun("f", vec![var("B"), var("A")])));
}

#[test]
fn later_definition_overwrites_earlier() {
    let (env, _) = run_script(
        "def r as f(x) => g(x)    def r as f(x) => h(x, x)    f(A)    r at 0",
    );
    assert_eq!(env.get_expr(), Some(&fun("h", vec![var("A"), var("A")])));
}

#[test]
fn warnings_for_statements_out_of_state() {
    let (env, _) = run_script("swap at 0");
    assert_eq!(env.warnings.len(), 1);
    let (env2, _) = run_script("end");
    assert_eq!(env2.warnings.len(), 1);
    let (env3, _) = run_script("f(x) => g(x) at 0");
    assert_eq!(env3.warnings.len(), 1);
    let (env4, _) = run_script("f(A)    g(B)");
    assert_eq!(env4.warnings.len(), 1);
    let (env5, _) = run_script("f(A)    missing at 0");
    assert_eq!(env5.warnings.len(), 1);
}

#[test]
fn step_effects_report_session_flow() {
    let mut env = Env::new();
    let eff = env.interpret_stmt(raxio::parser::Stmt::ExprStmt(fun("f", vec![var("A")])));
    assert!(matches!(eff, StepEffect::Started));
    let eff = env.interpret_stmt(raxio::parser::Stmt::RuleStmt {
        left: fun("f", vec![var("x")]),
        right: fun("g", vec![var("x")]),
        depth: 0,
    });
    assert!(matches!(eff, StepEffect::Stepped));
    let eff = env.interpret_stmt(raxio::parser::Stmt::EndStmt(None));
    match eff {
        StepEffect::Ended { result, export } => {
            assert_eq!(result, fun("g", vec![var("A")]));
            assert!(export.is_none());
        }
        _ => panic!("session end must report its result"),
    }
}

#[test]
fn undo_at_anchor_is_a_no_op() {
    let (mut env, _) = run_script("f(A)");
    env.pop_expr();
    assert_eq!(env.get_expr(), Some(&fun("f", vec![var("A")])));
    assert_eq!(env.history.len(), 1);
}
