//! Statements of the rewriting language, and the parser that builds them
//! from a token stream: precedence climbing for the infix operators, functor
//! argument lists, and statement dispatch on the leading token.

use vstd::prelude::*;
use crate::term::{Expr, TermView, dec_str, term_views, lemma_term_views, usize_to_string};
use crate::lexer::{Lexer, Token, TokenView, token_desc, token_views, lemma_token_views};
use crate::error::{ParsingError, ParsingErrorView};

verus! {

/// A statement the session machine consumes: an in-line rule application at
/// a depth, a named rule definition, an application of a named rule at a
/// depth, an anchor expression, or the end of a session with an optional
/// transcript path.
#[derive(Debug, PartialEq)]
pub enum Stmt {
    RuleStmt { left: Expr, right: Expr, depth: usize },
    DefineStmt { iden: String, left: Expr, right: Expr },
    ApplyStmt { iden: String, depth: usize },
    ExprStmt(Expr),
    EndStmt(Option<String>),
}

/// Mathematical model of a statement.
pub enum StmtView {
    RuleStmt { left: TermView, right: TermView, depth: nat },
    DefineStmt { iden: Seq<char>, left: TermView, right: TermView },
    ApplyStmt { iden: Seq<char>, depth: nat },
    ExprStmt(TermView),
    EndStmt(Option<Seq<char>>),
}

impl View for Stmt {
    type V = StmtView;

    open spec fn view(&self) -> StmtView {
        match self {
            Stmt::RuleStmt { left, right, depth } => StmtView::RuleStmt {
                left: left@,
                right: right@,
                depth: *depth as nat,
            },
            Stmt::DefineStmt { iden, left, right } => StmtView::DefineStmt {
                iden: iden@,
                left: left@,
                right: right@,
            },
            Stmt::ApplyStmt { iden, depth } => StmtView::ApplyStmt {
                iden: iden@,
                depth: *depth as nat,
            },
            Stmt::ExprStmt(e) => StmtView::ExprStmt(e@),
            Stmt::EndStmt(p) => StmtView::EndStmt(
                match p {
                    Some(s) => Some(s@),
                    None => None,
                },
            ),
        }
    }
}

/// The views of a statement list, in order.
pub open spec fn stmt_views(s: Seq<Stmt>) -> Seq<StmtView>
    decreases s.len(),
{
    if s.len() == 0 {
        Seq::empty()
    } else {
        stmt_views(s.drop_last()).push(s.last()@)
    }
}

/// `stmt_views` maps the view over the list elementwise.
pub broadcast proof fn lemma_stmt_views(s: Seq<Stmt>)
    ensures
        #[trigger] stmt_views(s).len() == s.len(),
        forall|i: int| 0 <= i < s.len() ==> stmt_views(s)[i] == s[i]@,
    decreases s.len(),
{
    if s.len() > 0 {
        lemma_stmt_views(s.drop_last());
    }
}

/// The token at position `i` of the stream, if there is one.
pub open spec fn tok_at(toks: Seq<TokenView>, i: nat) -> Option<TokenView> {
    if i < toks.len() {
        Some(toks[i as int])
    } else {
        None
    }
}

/// The description of the token at `i`, as parse errors report it.
pub open spec fn got_desc(toks: Seq<TokenView>, i: nat) -> Option<Seq<char>> {
    match tok_at(toks, i) {
        Some(t) => Some(token_desc(t)),
        None => None,
    }
}

/// The position a successful sub-parse ended at. A successful sub-parse
/// always consumes at least one token, so this is its argument `j`; the
/// clamp only shields the termination measure of the mutually recursive
/// grammar from that fact.
pub open spec fn bump(i: nat, j: nat) -> nat {
    if j > i {
        j
    } else {
        i + 1
    }
}

/// Tokens not yet consumed at position `i`: the termination measure of the
/// grammar.
pub open spec fn toks_rem(toks: Seq<TokenView>, i: nat) -> nat {
    if i < toks.len() {
        (toks.len() - i) as nat
    } else {
        0
    }
}

/// Parse an atom at `i`: a parenthesized `group` list, a functor or a
/// variable, or a number, which becomes a variable named by its decimal
/// digits. On success, the term and the position after it.
pub open spec fn parse_expr_at(toks: Seq<TokenView>, i: nat) -> Result<
    (TermView, nat),
    ParsingErrorView,
>
    decreases toks_rem(toks, i), 1int,
{
    match tok_at(toks, i) {
        Some(TokenView::OpenParen) => match parse_args_at(toks, i + 1) {
            Ok((args, j)) => Ok((TermView::Fun { head: "group"@, args }, j)),
            Err(e) => Err(e),
        },
        Some(TokenView::Identifier(name)) => {
            if tok_at(toks, i + 1) == Some(TokenView::OpenParen) {
                match parse_args_at(toks, i + 2) {
                    Ok((args, j)) => Ok((TermView::Fun { head: name, args }, j)),
                    Err(e) => Err(e),
                }
            } else {
                Ok((TermView::Var { name }, i + 1))
            }
        },
        Some(TokenView::Number(n)) => Ok((TermView::Var { name: dec_str(n) }, i + 1)),
        Some(t) => Err(ParsingErrorView::UnexpectedToken { got: Some(token_desc(t)) }),
        None => Err(ParsingErrorView::UnexpectedToken { got: None }),
    }
}

/// Parse a functor argument list from just after its opening parenthesis:
/// terms in order until the closing parenthesis, a comma after a term
/// consumed when present. On success, the arguments and the position after
/// the closing parenthesis.
pub open spec fn parse_args_at(toks: Seq<TokenView>, i: nat) -> Result<
    (Seq<TermView>, nat),
    ParsingErrorView,
>
    decreases toks_rem(toks, i), 6int,
{
    if i >= toks.len() {
        Err(ParsingErrorView::UnexpectedToken { got: None })
    } else if toks[i as int] == TokenView::CloseParen {
        Ok((Seq::empty(), i + 1))
    } else {
        match parse_term_at(toks, i) {
            Err(e) => Err(e),
            Ok((e, j0)) => {
                let j = bump(i, j0);
                let j2 = if tok_at(toks, j) == Some(TokenView::Comma) {
                    j + 1
                } else {
                    j
                };
                match parse_args_at(toks, j2) {
                    Ok((rest, k)) => Ok((seq![e] + rest, k)),
                    Err(e2) => Err(e2),
                }
            },
        }
    }
}

/// Parse a factor at `i`: an atom followed by any run of `*` and `/`
/// operators, left-associated into `mul` and `div` functors.
pub open spec fn parse_factor_at(toks: Seq<TokenView>, i: nat) -> Result<
    (TermView, nat),
    ParsingErrorView,
>
    decreases toks_rem(toks, i), 3int,
{
    match parse_expr_at(toks, i) {
        Err(e) => Err(e),
        Ok((e, j0)) => parse_factor_rest_at(e, toks, bump(i, j0)),
    }
}

/// Continue a factor at `i` with the atom parsed so far on the left.
pub open spec fn parse_factor_rest_at(left: TermView, toks: Seq<TokenView>, i: nat) -> Result<
    (TermView, nat),
    ParsingErrorView,
>
    decreases toks_rem(toks, i), 2int,
{
    if tok_at(toks, i) == Some(TokenView::Mul) || tok_at(toks, i) == Some(TokenView::Div) {
        let op = if toks[i as int] == TokenView::Mul {
            "mul"@
        } else {
            "div"@
        };
        match parse_expr_at(toks, i + 1) {
            Err(e) => Err(e),
            Ok((right, j0)) => parse_factor_rest_at(
                TermView::Fun { head: op, args: seq![left, right] },
                toks,
                bump(i + 1, j0),
            ),
        }
    } else {
        Ok((left, i))
    }
}

/// Parse a term at `i`: a factor followed by any run of `+` and `-`
/// operators, left-associated into `add` and `sub` functors; `*` and `/`
/// bind tighter.
pub open spec fn parse_term_at(toks: Seq<TokenView>, i: nat) -> Result<
    (TermView, nat),
    ParsingErrorView,
>
    decreases toks_rem(toks, i), 5int,
{
    match parse_factor_at(toks, i) {
        Err(e) => Err(e),
        Ok((e, j0)) => parse_term_rest_at(e, toks, bump(i, j0)),
    }
}

/// Continue a term at `i` with the factor parsed so far on the left.
pub open spec fn parse_term_rest_at(left: TermView, toks: Seq<TokenView>, i: nat) -> Result<
    (TermView, nat),
    ParsingErrorView,
>
    decreases toks_rem(toks, i), 4int,
{
    if tok_at(toks, i) == Some(TokenView::Add) || tok_at(toks, i) == Some(TokenView::Sub) {
        let op = if toks[i as int] == TokenView::Add {
            "add"@
        } else {
            "sub"@
        };
        match parse_factor_at(toks, i + 1) {
            Err(e) => Err(e),
            Ok((right, j0)) => parse_term_rest_at(
                TermView::Fun { head: op, args: seq![left, right] },
                toks,
                bump(i + 1, j0),
            ),
        }
    } else {
        Ok((left, i))
    }
}

/// Parse a definition whose `def` keyword stands at `i`: a rule name, the
/// keyword `as`, and the pattern and template terms joined by `=>`.
pub open spec fn parse_definition_at(toks: Seq<TokenView>, i: nat) -> Result<
    (StmtView, nat),
    ParsingErrorView,
>
    decreases toks_rem(toks, i), 7int,
{
    match tok_at(toks, i + 1) {
        Some(TokenView::Identifier(name)) => {
            if tok_at(toks, i + 2) == Some(TokenView::As) {
                match parse_term_at(toks, i + 3) {
                    Err(e) => Err(e),
                    Ok((left, j0)) => {
                        let j = bump(i + 3, j0);
                        if tok_at(toks, j) == Some(TokenView::Derive) {
                            match parse_term_at(toks, j + 1) {
                                Err(e) => Err(e),
                                Ok((right, k0)) => Ok(
                                    (
                                        StmtView::DefineStmt { iden: name, left, right },
                                        bump(j + 1, k0),
                                    ),
                                ),
                            }
                        } else {
                            Err(
                                ParsingErrorView::ExpectToken {
                                    expected: token_desc(TokenView::Derive),
                                    got: got_desc(toks, j),
                                },
                            )
                        }
                    },
                }
            } else {
                Err(
                    ParsingErrorView::ExpectToken {
                        expected: token_desc(TokenView::As),
                        got: got_desc(toks, i + 2),
                    },
                )
            }
        },
        Some(t) => Err(
            ParsingErrorView::ExpectTokenAfter {
                expected: "identifier"@,
                after: token_desc(TokenView::Define),
                got: Some(token_desc(t)),
            },
        ),
        None => Err(
            ParsingErrorView::ExpectTokenAfter {
                expected: "identifier"@,
                after: token_desc(TokenView::Define),
                got: None,
            },
        ),
    }
}

/// Parse an end statement whose `end` keyword stands at `i`, with its
/// optional path literal.
pub open spec fn parse_end_at(toks: Seq<TokenView>, i: nat) -> (StmtView, nat) {
    match tok_at(toks, i + 1) {
        Some(TokenView::Path(p)) => (StmtView::EndStmt(Some(p)), i + 2),
        _ => (StmtView::EndStmt(None), i + 1),
    }
}

/// Parse a statement at `i` that does not start with a keyword: a term,
/// which alone is an anchor expression; followed by `=>`, a template and
/// `at` with a depth, an in-line rule; a bare variable followed by `at` and
/// a depth, an application of the rule of that name.
pub open spec fn parse_rule_or_at(toks: Seq<TokenView>, i: nat) -> Result<
    (StmtView, nat),
    ParsingErrorView,
>
    decreases toks_rem(toks, i), 7int,
{
    if i >= toks.len() {
        Err(ParsingErrorView::UnexpectedToken { got: None })
    } else {
        match parse_term_at(toks, i) {
            Err(e) => Err(e),
            Ok((left, j0)) => {
                let j = bump(i, j0);
                if tok_at(toks, j) == Some(TokenView::Derive) {
                    match parse_term_at(toks, j + 1) {
                        Err(e) => Err(e),
                        Ok((right, k0)) => {
                            let k = bump(j + 1, k0);
                            if tok_at(toks, k) == Some(TokenView::At) {
                                match tok_at(toks, k + 1) {
                                    Some(TokenView::Number(n)) => Ok(
                                        (StmtView::RuleStmt { left, right, depth: n }, k + 2),
                                    ),
                                    _ => Err(ParsingErrorView::ExpectDepthValue),
                                }
                            } else {
                                Err(
                                    ParsingErrorView::ExpectToken {
                                        expected: token_desc(TokenView::At),
                                        got: got_desc(toks, k),
                                    },
                                )
                            }
                        },
                    }
                } else if left matches TermView::Var { name } && tok_at(toks, j) == Some(
                    TokenView::At,
                ) {
                    match tok_at(toks, j + 1) {
                        Some(TokenView::Number(n)) => Ok(
                            (StmtView::ApplyStmt { iden: left->Var_name, depth: n }, j + 2),
                        ),
                        Some(t) => Err(
                            ParsingErrorView::ExpectTokenAfter {
                                expected: "number"@,
                                after: token_desc(TokenView::At),
                                got: Some(token_desc(t)),
                            },
                        ),
                        None => Err(
                            ParsingErrorView::ExpectTokenAfter {
                                expected: "number"@,
                                after: token_desc(TokenView::At),
                                got: None,
                            },
                        ),
                    }
                } else {
                    Ok((StmtView::ExprStmt(left), j))
                }
            },
        }
    }
}

/// Parse one statement at `i`, dispatching on its leading token: `def`
/// opens a definition, `end` an end statement, and anything else a term-led
/// statement.
pub open spec fn parse_stmt_at(toks: Seq<TokenView>, i: nat) -> Result<
    (StmtView, nat),
    ParsingErrorView,
>
    decreases toks_rem(toks, i), 8int,
{
    match toks[i as int] {
        TokenView::Define => parse_definition_at(toks, i),
        TokenView::End => Ok(parse_end_at(toks, i)),
        _ => parse_rule_or_at(toks, i),
    }
}

/// Parse a whole token stream into statements, one after another.
/// Statements parsed before the first error are kept; the error, if any, is
/// returned beside them.
pub open spec fn parse_program_at(toks: Seq<TokenView>, i: nat) -> (
    Seq<StmtView>,
    Option<ParsingErrorView>,
)
    decreases toks_rem(toks, i), 9int,
{
    if i >= toks.len() {
        (Seq::empty(), None)
    } else {
        match parse_stmt_at(toks, i) {
            Err(e) => (Seq::empty(), Some(e)),
            Ok((st, j0)) => {
                let rest = parse_program_at(toks, bump(i, j0));
                (seq![st] + rest.0, rest.1)
            },
        }
    }
}

/// Appending a statement appends its view.
proof fn lemma_stmt_views_push(s: Seq<Stmt>, st: Stmt)
    ensures
        stmt_views(s.push(st)) == stmt_views(s).push(st@),
{
    assert(s.push(st).drop_last() =~= s);
}

/// The parser: the statements built so far, in order.
#[derive(Debug)]
pub struct Parser {
    pub stmts: Vec<Stmt>,
}

impl Parser {
    /// A fresh parser with no statements.
    pub fn new() -> (r: Parser)
        ensures
            r.stmts@ == Seq::<Stmt>::empty(),
    {
        Parser { stmts: vec![] }
    }

    /// Parse an atom at the cursor: a parenthesized `group` list, a functor
    /// or a variable, or a number, which becomes a variable named by its
    /// decimal digits.
    fn parse_expr(lexer: &mut Lexer) -> (r: Result<Expr, ParsingError>)
        requires
            old(lexer).idx <= old(lexer).tokens@.len(),
        ensures
            final(lexer).tokens@ == old(lexer).tokens@,
            final(lexer).errors@ == old(lexer).errors@,
            final(lexer).idx <= final(lexer).tokens@.len(),
            ({
                let out = parse_expr_at(token_views(old(lexer).tokens@), old(lexer).idx as nat);
                match r {
                    Ok(e) => out == Ok::<_, ParsingErrorView>((e@, final(lexer).idx as nat))
                        && final(lexer).idx > old(lexer).idx,
                    Err(pe) => out == Err::<(TermView, nat), _>(pe@),
                }
            }),
        decreases old(lexer).tokens@.len() - old(lexer).idx, 1int,
    {
        proof {
            lemma_token_views(lexer.tokens@);
        }
        match lexer.peek(0) {
            Some(Token::OpenParen) => {
                match Self::parse_functor_args(lexer) {
                    Ok(args) => {
                        let r = Expr::Functor { iden: String::from_str("group"), args };
                        proof {
                            lemma_term_views(r->Functor_args@);
                        }
                        Ok(r)
                    },
                    Err(e) => Err(e),
                }
            },
            Some(Token::Identifier(s)) => {
                let name = s.clone();
                let _ = lexer.next();
                let open_next = match lexer.peek(0) {
                    Some(Token::OpenParen) => true,
                    _ => false,
                };
                if open_next {
                    match Self::parse_functor_args(lexer) {
                        Ok(args) => {
                            let r = Expr::Functor { iden: name, args };
                            proof {
                                lemma_term_views(r->Functor_args@);
                            }
                            Ok(r)
                        },
                        Err(e) => Err(e),
                    }
                } else {
                    Ok(Expr::Variable { iden: name })
                }
            },
            Some(Token::Number(n)) => {
                let v = *n;
                let _ = lexer.next();
                Ok(Expr::Variable { iden: usize_to_string(v) })
            },
            Some(tok) => Err(ParsingError::UnexpectedToken { got: Some(tok.to_string()) }),
            None => Err(ParsingError::UnexpectedToken { got: None }),
        }
    }

    /// Parse a functor argument list whose opening parenthesis stands at
    /// the cursor: terms in order until the closing parenthesis, a comma
    /// after a term consumed when present.
    fn parse_functor_args(lexer: &mut Lexer) -> (r: Result<Vec<Expr>, ParsingError>)
        requires
            old(lexer).idx < old(lexer).tokens@.len(),
        ensures
            final(lexer).tokens@ == old(lexer).tokens@,
            final(lexer).errors@ == old(lexer).errors@,
            final(lexer).idx <= final(lexer).tokens@.len(),
            ({
                let out = parse_args_at(
                    token_views(old(lexer).tokens@),
                    old(lexer).idx as nat + 1,
                );
                match r {
                    Ok(args) => out == Ok::<_, ParsingErrorView>(
                        (term_views(args@), final(lexer).idx as nat),
                    ) && final(lexer).idx > old(lexer).idx,
                    Err(pe) => out == Err::<(Seq<TermView>, nat), _>(pe@),
                }
            }),
        decreases old(lexer).tokens@.len() - old(lexer).idx, 0int,
    {
        let _ = lexer.next();
        Self::parse_args_tail(lexer)
    }

    /// Parse the rest of an argument list from just after its opening
    /// parenthesis or after a consumed comma.
    fn parse_args_tail(lexer: &mut Lexer) -> (r: Result<Vec<Expr>, ParsingError>)
        requires
            old(lexer).idx <= old(lexer).tokens@.len(),
        ensures
            final(lexer).tokens@ == old(lexer).tokens@,
            final(lexer).errors@ == old(lexer).errors@,
            final(lexer).idx <= final(lexer).tokens@.len(),
            ({
                let out = parse_args_at(token_views(old(lexer).tokens@), old(lexer).idx as nat);
                match r {
                    Ok(args) => out == Ok::<_, ParsingErrorView>(
                        (term_views(args@), final(lexer).idx as nat),
                    ) && final(lexer).idx > old(lexer).idx,
                    Err(pe) => out == Err::<(Seq<TermView>, nat), _>(pe@),
                }
            }),
        decreases old(lexer).tokens@.len() - old(lexer).idx, 6int,
    {
        proof {
            lemma_token_views(lexer.tokens@);
        }
        let close_next = match lexer.peek(0) {
            Some(Token::CloseParen) => true,
            _ => false,
        };
        if close_next {
            let _ = lexer.next();
            proof {
                assert(term_views(Seq::<Expr>::empty()) =~= Seq::<TermView>::empty());
            }
            Ok(Vec::new())
        } else if lexer.is_at_end() {
            Err(ParsingError::UnexpectedToken { got: None })
        } else {
            match Self::parse_term(lexer) {
                Err(e) => Err(e),
                Ok(e) => {
                    let comma_next = match lexer.peek(0) {
                        Some(Token::Comma) => true,
                        _ => false,
                    };
                    if comma_next {
                        let _ = lexer.next();
                    }
                    match Self::parse_args_tail(lexer) {
                        Err(e2) => Err(e2),
                        Ok(mut rest) => {
                            let ghost rest0 = rest@;
                            rest.insert(0, e);
                            proof {
                                lemma_term_views(rest@);
                                lemma_term_views(rest0);
                                assert(term_views(rest@) =~= seq![e@] + term_views(rest0));
                            }
                            Ok(rest)
                        },
                    }
                },
            }
        }
    }

    /// Parse a factor at the cursor: an atom followed by any run of `*` and
    /// `/` operators, left-associated into `mul` and `div` functors.
    fn parse_factor(lexer: &mut Lexer) -> (r: Result<Expr, ParsingError>)
        requires
            old(lexer).idx <= old(lexer).tokens@.len(),
        ensures
            final(lexer).tokens@ == old(lexer).tokens@,
            final(lexer).errors@ == old(lexer).errors@,
            final(lexer).idx <= final(lexer).tokens@.len(),
            ({
                let out = parse_factor_at(token_views(old(lexer).tokens@), old(lexer).idx as nat);
                match r {
                    Ok(e) => out == Ok::<_, ParsingErrorView>((e@, final(lexer).idx as nat))
                        && final(lexer).idx > old(lexer).idx,
                    Err(pe) => out == Err::<(TermView, nat), _>(pe@),
                }
            }),
        decreases old(lexer).tokens@.len() - old(lexer).idx, 3int,
    {
        match Self::parse_expr(lexer) {
            Err(e) => Err(e),
            Ok(left) => Self::parse_factor_rest(left, lexer),
        }
    }

    /// Continue a factor at the cursor with the atom parsed so far.
    fn parse_factor_rest(left: Expr, lexer: &mut Lexer) -> (r: Result<Expr, ParsingError>)
        requires
            old(lexer).idx <= old(lexer).tokens@.len(),
        ensures
            final(lexer).tokens@ == old(lexer).tokens@,
            final(lexer).errors@ == old(lexer).errors@,
            final(lexer).idx <= final(lexer).tokens@.len(),
            ({
                let out = parse_factor_rest_at(
                    left@,
                    token_views(old(lexer).tokens@),
                    old(lexer).idx as nat,
                );
                match r {
                    Ok(e) => out == Ok::<_, ParsingErrorView>((e@, final(lexer).idx as nat))
                        && final(lexer).idx >= old(lexer).idx,
                    Err(pe) => out == Err::<(TermView, nat), _>(pe@),
                }
            }),
        decreases old(lexer).tokens@.len() - old(lexer).idx, 2int,
    {
        proof {
            lemma_token_views(lexer.tokens@);
        }
        let op_name: Option<String> = match lexer.peek(0) {
            Some(Token::Mul) => Some(String::from_str("mul")),
            Some(Token::Div) => Some(String::from_str("div")),
            _ => None,
        };
        match op_name {
            None => Ok(left),
            Some(op) => {
                let _ = lexer.next();
                match Self::parse_expr(lexer) {
                    Err(e) => Err(e),
                    Ok(right) => {
                        let combined = Expr::Functor { iden: op, args: vec![left, right] };
                        proof {
                            lemma_term_views(combined->Functor_args@);
                            assert(term_views(combined->Functor_args@) =~= seq![
                                combined->Functor_args@[0]@,
                                combined->Functor_args@[1]@,
                            ]);
                        }
                        Self::parse_factor_rest(combined, lexer)
                    },
                }
            },
        }
    }

    /// Parse a term at the cursor: a factor followed by any run of `+` and
    /// `-` operators, left-associated into `add` and `sub` functors; `*`
    /// and `/` bind tighter.
    fn parse_term(lexer: &mut Lexer) -> (r: Result<Expr, ParsingError>)
        requires
            old(lexer).idx <= old(lexer).tokens@.len(),
        ensures
            final(lexer).tokens@ == old(lexer).tokens@,
            final(lexer).errors@ == old(lexer).errors@,
            final(lexer).idx <= final(lexer).tokens@.len(),
            ({
                let out = parse_term_at(token_views(old(lexer).tokens@), old(lexer).idx as nat);
                match r {
                    Ok(e) => out == Ok::<_, ParsingErrorView>((e@, final(lexer).idx as nat))
                        && final(lexer).idx > old(lexer).idx,
                    Err(pe) => out == Err::<(TermView, nat), _>(pe@),
                }
            }),
        decreases old(lexer).tokens@.len() - old(lexer).idx, 5int,
    {
        match Self::parse_factor(lexer) {
            Err(e) => Err(e),
            Ok(left) => Self::parse_term_rest(left, lexer),
        }
    }

    /// Continue a term at the cursor with the factor parsed so far.
    fn parse_term_rest(left: Expr, lexer: &mut Lexer) -> (r: Result<Expr, ParsingError>)
        requires
            old(lexer).idx <= old(lexer).tokens@.len(),
        ensures
            final(lexer).tokens@ == old(lexer).tokens@,
            final(lexer).errors@ == old(lexer).errors@,
            final(lexer).idx <= final(lexer).tokens@.len(),
            ({
                let out = parse_term_rest_at(
                    left@,
                    token_views(old(lexer).tokens@),
                    old(lexer).idx as nat,
                );
                match r {
                    Ok(e) => out == Ok::<_, ParsingErrorView>((e@, final(lexer).idx as nat))
                        && final(lexer).idx >= old(lexer).idx,
                    Err(pe) => out == Err::<(TermView, nat), _>(pe@),
                }
            }),
        decreases old(lexer).tokens@.len() - old(lexer).idx, 4int,
    {
        proof {
            lemma_token_views(lexer.tokens@);
        }
        let op_name: Option<String> = match lexer.peek(0) {
            Some(Token::Add) => Some(String::from_str("add")),
            Some(Token::Sub) => Some(String::from_str("sub")),
            _ => None,
        };
        match op_name {
            None => Ok(left),
            Some(op) => {
                let _ = lexer.next();
                match Self::parse_factor(lexer) {
                    Err(e) => Err(e),
                    Ok(right) => {
                        let combined = Expr::Functor { iden: op, args: vec![left, right] };
                        proof {
                            lemma_term_views(combined->Functor_args@);
                            assert(term_views(combined->Functor_args@) =~= seq![
                                combined->Functor_args@[0]@,
                                combined->Functor_args@[1]@,
                            ]);
                        }
                        Self::parse_term_rest(combined, lexer)
                    },
                }
            },
        }
    }

    /// Parse a definition whose `def` keyword stands at the cursor and
    /// record the statement: a rule name, the keyword `as`, and the pattern
    /// and template terms joined by `=>`.
    fn parse_definition(&mut self, lexer: &mut Lexer) -> (r: Result<(), ParsingError>)
        requires
            old(lexer).idx < old(lexer).tokens@.len(),
        ensures
            final(lexer).tokens@ == old(lexer).tokens@,
            final(lexer).errors@ == old(lexer).errors@,
            final(lexer).idx <= final(lexer).tokens@.len(),
            ({
                let out = parse_definition_at(
                    token_views(old(lexer).tokens@),
                    old(lexer).idx as nat,
                );
                match r {
                    Ok(()) => out matches Ok((st, j)) && stmt_views(final(self).stmts@)
                        == stmt_views(old(self).stmts@).push(st) && final(lexer).idx as nat == j
                        && final(lexer).idx > old(lexer).idx,
                    Err(pe) => out == Err::<(StmtView, nat), _>(pe@) && final(self).stmts@ == old(
                        self,
                    ).stmts@,
                }
            }),
    {
        proof {
            lemma_token_views(lexer.tokens@);
        }
        let _ = lexer.next();
        let name: String = match lexer.peek(0) {
            Some(Token::Identifier(s)) => s.clone(),
            Some(tok) => {
                return Err(
                    ParsingError::ExpectTokenAfter {
                        expected: String::from_str("identifier"),
                        after: Token::Define.to_string(),
                        got: Some(tok.to_string()),
                    },
                );
            },
            None => {
                return Err(
                    ParsingError::ExpectTokenAfter {
                        expected: String::from_str("identifier"),
                        after: Token::Define.to_string(),
                        got: None,
                    },
                );
            },
        };
        let _ = lexer.next();
        let as_next = match lexer.peek(0) {
            Some(Token::As) => true,
            _ => false,
        };
        if !as_next {
            return Err(
                ParsingError::ExpectToken {
                    expected: Token::As.to_string(),
                    got: match lexer.peek(0) {
                        Some(tok) => Some(tok.to_string()),
                        None => None,
                    },
                },
            );
        }
        let _ = lexer.next();
        let left = match Self::parse_term(lexer) {
            Ok(e) => e,
            Err(e) => {
                return Err(e);
            },
        };
        let derive_next = match lexer.peek(0) {
            Some(Token::Derive) => true,
            _ => false,
        };
        if !derive_next {
            return Err(
                ParsingError::ExpectToken {
                    expected: Token::Derive.to_string(),
                    got: match lexer.peek(0) {
                        Some(tok) => Some(tok.to_string()),
                        None => None,
                    },
                },
            );
        }
        let _ = lexer.next();
        let right = match Self::parse_term(lexer) {
            Ok(e) => e,
            Err(e) => {
                return Err(e);
            },
        };
        let ghost stmts0 = self.stmts@;
        let st = Stmt::DefineStmt { iden: name, left, right };
        self.stmts.push(st);
        proof {
            lemma_stmt_views_push(stmts0, st);
        }
        Ok(())
    }

    /// Parse an end statement whose `end` keyword stands at the cursor and
    /// record it, with its optional path literal.
    fn parse_end_stmt(&mut self, lexer: &mut Lexer) -> (r: Result<(), ParsingError>)
        requires
            old(lexer).idx < old(lexer).tokens@.len(),
        ensures
            final(lexer).tokens@ == old(lexer).tokens@,
            final(lexer).errors@ == old(lexer).errors@,
            final(lexer).idx <= final(lexer).tokens@.len(),
            r is Ok,
            ({
                let out = parse_end_at(token_views(old(lexer).tokens@), old(lexer).idx as nat);
                stmt_views(final(self).stmts@) == stmt_views(old(self).stmts@).push(out.0)
                    && final(lexer).idx as nat == out.1 && final(lexer).idx > old(lexer).idx
            }),
    {
        proof {
            lemma_token_views(lexer.tokens@);
        }
        let _ = lexer.next();
        let path: Option<String> = match lexer.peek(0) {
            Some(Token::Path(s)) => Some(s.clone()),
            _ => None,
        };
        if path.is_some() {
            let _ = lexer.next();
        }
        let ghost stmts0 = self.stmts@;
        let st = Stmt::EndStmt(path);
        self.stmts.push(st);
        proof {
            lemma_stmt_views_push(stmts0, st);
        }
        Ok(())
    }

    /// Parse a statement at the cursor that does not start with a keyword,
    /// and record it: a bare term anchors a session; `term => term at N` is
    /// an in-line rule; a bare variable followed by `at N` applies the rule
    /// of that name.
    #[verifier::rlimit(100)]
    fn parse_rule(&mut self, lexer: &mut Lexer) -> (r: Result<(), ParsingError>)
        requires
            old(lexer).idx <= old(lexer).tokens@.len(),
        ensures
            final(lexer).tokens@ == old(lexer).tokens@,
            final(lexer).errors@ == old(lexer).errors@,
            final(lexer).idx <= final(lexer).tokens@.len(),
            ({
                let out = parse_rule_or_at(token_views(old(lexer).tokens@), old(lexer).idx as nat);
                match r {
                    Ok(()) => out matches Ok((st, j)) && stmt_views(final(self).stmts@)
                        == stmt_views(old(self).stmts@).push(st) && final(lexer).idx as nat == j
                        && final(lexer).idx > old(lexer).idx,
                    Err(pe) => out == Err::<(StmtView, nat), _>(pe@) && final(self).stmts@ == old(
                        self,
                    ).stmts@,
                }
            }),
    {
        proof {
            lemma_token_views(lexer.tokens@);
        }
        let left = match Self::parse_term(lexer) {
            Ok(e) => e,
            Err(e) => {
                return Err(e);
            },
        };
        let derive_next = match lexer.peek(0) {
            Some(Token::Derive) => true,
            _ => false,
        };
        if derive_next {
            let _ = lexer.next();
            let right = match Self::parse_term(lexer) {
                Ok(e) => e,
                Err(e) => {
                    return Err(e);
                },
            };
            let at_next = match lexer.peek(0) {
                Some(Token::At) => true,
                _ => false,
            };
            if !at_next {
                return Err(
                    ParsingError::ExpectToken {
                        expected: Token::At.to_string(),
                        got: match lexer.peek(0) {
                            Some(tok) => Some(tok.to_string()),
                            None => None,
                        },
                    },
                );
            }
            let _ = lexer.next();
            let depth: usize = match lexer.peek(0) {
                Some(Token::Number(n)) => *n,
                _ => {
                    return Err(ParsingError::ExpectDepthValue);
                },
            };
            let _ = lexer.next();
            let ghost stmts0 = self.stmts@;
            let st = Stmt::RuleStmt { left, right, depth };
            self.stmts.push(st);
            proof {
                lemma_stmt_views_push(stmts0, st);
            }
            Ok(())
        } else {
            let at_next = match lexer.peek(0) {
                Some(Token::At) => true,
                _ => false,
            };
            if at_next {
                match left {
                    Expr::Variable { iden } => {
                        let _ = lexer.next();
                        let depth: usize = match lexer.peek(0) {
                            Some(Token::Number(n)) => *n,
                            Some(tok) => {
                                return Err(
                                    ParsingError::ExpectTokenAfter {
                                        expected: String::from_str("number"),
                                        after: Token::At.to_string(),
                                        got: Some(tok.to_string()),
                                    },
                                );
                            },
                            None => {
                                return Err(
                                    ParsingError::ExpectTokenAfter {
                                        expected: String::from_str("number"),
                                        after: Token::At.to_string(),
                                        got: None,
                                    },
                                );
                            },
                        };
                        let _ = lexer.next();
                        let ghost stmts0 = self.stmts@;
                        let st = Stmt::ApplyStmt { iden, depth };
                        self.stmts.push(st);
                        proof {
                            lemma_stmt_views_push(stmts0, st);
                        }
                        Ok(())
                    },
                    other => {
                        let ghost stmts0 = self.stmts@;
                        let st = Stmt::ExprStmt(other);
                        self.stmts.push(st);
                        proof {
                            lemma_stmt_views_push(stmts0, st);
                        }
                        Ok(())
                    },
                }
            } else {
                let ghost stmts0 = self.stmts@;
                let st = Stmt::ExprStmt(left);
                self.stmts.push(st);
                proof {
                    lemma_stmt_views_push(stmts0, st);
                }
                Ok(())
            }
        }
    }

    /// Parse one statement at the cursor and record it, dispatching on its
    /// leading token.
    fn parse_stmt(&mut self, lexer: &mut Lexer) -> (r: Result<(), ParsingError>)
        requires
            old(lexer).idx < old(lexer).tokens@.len(),
        ensures
            final(lexer).tokens@ == old(lexer).tokens@,
            final(lexer).errors@ == old(lexer).errors@,
            final(lexer).idx <= final(lexer).tokens@.len(),
            ({
                let out = parse_stmt_at(token_views(old(lexer).tokens@), old(lexer).idx as nat);
                match r {
                    Ok(()) => out matches Ok((st, j)) && stmt_views(final(self).stmts@)
                        == stmt_views(old(self).stmts@).push(st) && final(lexer).idx as nat == j
                        && final(lexer).idx > old(lexer).idx,
                    Err(pe) => out == Err::<(StmtView, nat), _>(pe@) && final(self).stmts@ == old(
                        self,
                    ).stmts@,
                }
            }),
    {
        proof {
            lemma_token_views(lexer.tokens@);
        }
        let kind: u8 = match lexer.peek(0) {
            Some(Token::Define) => 0,
            Some(Token::End) => 1,
            _ => 2,
        };
        if kind == 0 {
            self.parse_definition(lexer)
        } else if kind == 1 {
            self.parse_end_stmt(lexer)
        } else {
            self.parse_rule(lexer)
        }
    }

    /// Parse the statements from the cursor to the end of the stream,
    /// recording each; parsing stops at the first error, keeping the
    /// statements already built.
    fn parse_stmts(&mut self, lexer: &mut Lexer) -> (r: Result<(), ParsingError>)
        requires
            old(lexer).idx <= old(lexer).tokens@.len(),
        ensures
            final(lexer).tokens@ == old(lexer).tokens@,
            final(lexer).errors@ == old(lexer).errors@,
            final(lexer).idx <= final(lexer).tokens@.len(),
            ({
                let out = parse_program_at(token_views(old(lexer).tokens@), old(lexer).idx as nat);
                stmt_views(final(self).stmts@) == stmt_views(old(self).stmts@) + out.0 && (match r {
                    Ok(()) => out.1 is None,
                    Err(pe) => out.1 == Some(pe@),
                })
            }),
        decreases old(lexer).tokens@.len() - old(lexer).idx,
    {
        proof {
            lemma_token_views(lexer.tokens@);
        }
        let ghost tv = token_views(lexer.tokens@);
        let ghost i0 = lexer.idx as nat;
        let ghost stmts0 = self.stmts@;
        if lexer.is_at_end() {
            proof {
                assert(stmt_views(self.stmts@) + parse_program_at(tv, i0).0 =~= stmt_views(
                    self.stmts@,
                ));
            }
            return Ok(());
        }
        let step = self.parse_stmt(lexer);
        match step {
            Err(e) => {
                proof {
                    assert(stmt_views(self.stmts@) + parse_program_at(tv, i0).0 =~= stmt_views(
                        self.stmts@,
                    ));
                }
                Err(e)
            },
            Ok(()) => {
                let ghost mid = self.stmts@;
                let ghost j = lexer.idx as nat;
                let out = self.parse_stmts(lexer);
                proof {
                    assert(bump(i0, j) == j);
                    assert(stmt_views(self.stmts@) =~= stmt_views(stmts0) + parse_program_at(
                        tv,
                        i0,
                    ).0);
                }
                out
            },
        }
    }

    /// Parse the whole token stream into statements, from its start:
    /// definitions, end statements, and term-led statements in order,
    /// stopping at the first error and keeping what was built before it.
    pub fn parse(&mut self, lexer: &mut Lexer) -> (r: Result<(), ParsingError>)
        ensures
            final(lexer).tokens@ == old(lexer).tokens@,
            final(lexer).errors@ == old(lexer).errors@,
            ({
                let out = parse_program_at(token_views(old(lexer).tokens@), 0);
                stmt_views(final(self).stmts@) == stmt_views(old(self).stmts@) + out.0 && (match r {
                    Ok(()) => out.1 is None,
                    Err(pe) => out.1 == Some(pe@),
                })
            }),
    {
        lexer.reset_iter();
        self.parse_stmts(lexer)
    }
}

} // verus!
