use raxio::engine::{ast_traverse_match, construct_rhs, match_patterns, Bindings};
use raxio::term::{find_binary_ops, usize_to_string, Expr};

fn var(name: &str) -> Expr {
    Expr::Variable {
        iden: name.to_string(),
    }
}

fn fun(head: &str, args: Vec<Expr>) -> Expr {
    Expr::Functor {
        iden: head.to_string(),
        args,
    }
}

#[test]
fn no_match_returns_subject_unchanged() {
    let subject = fun("f", vec![var("A")]);
    let pattern = fun("g", vec![var("x")]);
    let template = fun("h", vec![var("x")]);
    let out = match_patterns(subject, &pattern, &template);
    assert_eq!(out, fun("f", vec![var("A")]));

    let arity_clash = match_patterns(
        fun("f", vec![var("A"), var("B")]),
        &fun("f", vec![var("x")]),
        &template,
    );
    assert_eq!(arity_clash, fun("f", vec![var("A"), var("B")]));

    let var_vs_functor = match_patterns(var("x"), &fun("f", vec![var("x")]), &template);
    assert_eq!(var_vs_functor, var("x"));
}

#[test]
fn matching_a_variable_against_itself_yields_the_template() {
    let template = fun("g", vec![var("q"), var("q")]);
    let out = match_patterns(var("v"), &var("v"), &template);
    assert_eq!(out, template);
}

#[test]
fn functor_match_substitutes_bindings() {
    let out = match_patterns(
        fun("f", vec![var("1"), var("0")]),
        &fun("f", vec![var("a"), var("b")]),
        &fun("f", vec![var("b"), var("a")]),
    );
    assert_eq!(out, fun("f", vec![var("0"), var("1")]));
}

#[test]
fn later_binding_of_a_name_wins() {
    let out = match_patterns(
        fun("f", vec![var("A"), var("B")]),
        &fun("f", vec![var("x"), var("x")]),
        &fun("g", vec![var("x")]),
    );
    assert_eq!(out, fun("g", vec![var("B")]));
}

#[test]
fn bare_variable_pattern_wraps_only_immediate_variables() {
    // Immediate variable arguments of the pattern's own name become clones
    // of the template; differently named variables and nested functors,
    // even ones holding that name, are kept as they are.
    let out = match_patterns(
        fun("h", vec![var("x"), var("A"), fun("k", vec![var("x")])]),
        &var("x"),
        &fun("t", vec![var("x")]),
    );
    assert_eq!(
        out,
        fun(
            "h",
            vec![
                fun("t", vec![var("x")]),
                var("A"),
                fun("k", vec![var("x")]),
            ]
        )
    );
}

#[test]
fn arity_zero_functor_is_not_a_variable() {
    // A functor of arity zero neither matches a variable pattern of the
    // same name at the root, nor has arguments to rewrite.
    let out = match_patterns(fun("f", vec![]), &var("f"), &var("R"));
    assert_eq!(out, fun("f", vec![]));
    let out2 = match_patterns(var("f"), &var("f"), &var("R"));
    assert_eq!(out2, var("R"));
}

#[test]
fn depth_zero_traversal_agrees_with_root_match() {
    let pattern = fun("f", vec![var("x")]);
    let template = fun("g", vec![var("x")]);
    let traversed = ast_traverse_match(fun("f", vec![var("A")]), &pattern, &template, 0);
    let matched = match_patterns(fun("f", vec![var("A")]), &pattern, &template);
    assert_eq!(traversed, matched);
}

#[test]
fn traversal_preserves_shallow_shape() {
    let subject = fun("f", vec![fun("f", vec![var("A")]), var("B")]);
    let out = ast_traverse_match(
        subject,
        &fun("f", vec![var("x")]),
        &fun("g", vec![var("x"), var("x")]),
        1,
    );
    // The root keeps its head and arity; only depth-1 sub-terms changed.
    assert_eq!(
        out,
        fun("f", vec![fun("g", vec![var("A"), var("A")]), var("B")])
    );
}

#[test]
fn depth_overrun_is_silently_ignored() {
    let out = ast_traverse_match(
        var("A"),
        &var("A"),
        &var("B"),
        3,
    );
    assert_eq!(out, var("A"));
}

#[test]
fn substitution_under_empty_bindings_is_identity() {
    let template = fun("f", vec![var("x"), fun("g", vec![var("y")])]);
    let table = Bindings::new();
    let out = construct_rhs(&template, &table);
    assert_eq!(out, template);
}

#[test]
fn substitution_maps_over_functor_arguments() {
    let mut table = Bindings::new();
    table.insert("x".to_string(), var("A"));
    let out = construct_rhs(&fun("f", vec![var("x"), var("y"), var("x")]), &table);
    assert_eq!(out, fun("f", vec![var("A"), var("y"), var("A")]));
}

#[test]
fn pretty_printing_forms() {
    let sugared = fun("add", vec![var("x"), fun("mul", vec![var("y"), var("z")])]);
    assert_eq!(sugared.to_string(), "x + y * z");
    assert_eq!(sugared.to_prefix_string(), "add(x, mul(y, z))");
    let grouped = fun("group", vec![var("a"), var("b")]);
    assert_eq!(grouped.to_string(), "(a, b)");
    let plain = fun("f", vec![]);
    assert_eq!(plain.to_string(), "f()");
    assert_eq!(fun("sub", vec![var("a")]).to_string(), "sub(a)");
}

#[test]
fn binary_operator_detection() {
    assert!(find_binary_ops(&fun(
        "f",
        vec![fun("div", vec![var("a"), var("b")])]
    )));
    assert!(!find_binary_ops(&fun("f", vec![var("a")])));
    assert!(!find_binary_ops(&var("add")));
}

#[test]
fn operator_symbols() {
    assert_eq!(Expr::get_binary_operator_str("add"), Some("+"));
    assert_eq!(Expr::get_binary_operator_str("sub"), Some("-"));
    assert_eq!(Expr::get_binary_operator_str("mul"), Some("*"));
    assert_eq!(Expr::get_binary_operator_str("div"), Some("/"));
    assert_eq!(Expr::get_binary_operator_str("group"), None);
}

#[test]
fn decimal_rendering() {
    assert_eq!(usize_to_string(0), "0");
    assert_eq!(usize_to_string(7), "7");
    assert_eq!(usize_to_string(120), "120");
    assert_eq!(usize_to_string(98765), "98765");
}
