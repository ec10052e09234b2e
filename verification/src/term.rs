//! The term model: expressions are finite trees of variables and functors.

use vstd::prelude::*;

verus! {

broadcast use vstd::std_specs::vec::axiom_vec_index_decreases, vstd::std_specs::vec::axiom_vec_decreases_to_view, vstd::seq::axiom_seq_index_decreases;

/// Mathematical model of an expression: a leaf variable or a functor with an
/// ordered sequence of argument terms.
pub enum TermView {
    Var { name: Seq<char> },
    Fun { head: Seq<char>, args: Seq<TermView> },
}

/// An expression of the rewriting language. A variable is a leaf; a functor
/// has a head identifier and zero or more ordered arguments (arity zero is
/// legal and distinct from a same-named variable).
#[derive(Debug, PartialEq, Eq)]
pub enum Expr {
    Functor { iden: String, args: Vec<Expr> },
    Variable { iden: String },
}

/// The terms denoted by a sequence of expressions, in order.
pub open spec fn term_views(s: Seq<Expr>) -> Seq<TermView>
    decreases s,
{
    if s.len() == 0 {
        Seq::empty()
    } else {
        term_views(s.drop_last()).push(s.last().view())
    }
}

/// `term_views` maps the denotation over the sequence elementwise.
pub broadcast proof fn lemma_term_views(s: Seq<Expr>)
    ensures
        #[trigger] term_views(s).len() == s.len(),
        forall|i: int| 0 <= i < s.len() ==> term_views(s)[i] == s[i]@,
    decreases s.len(),
{
    if s.len() > 0 {
        lemma_term_views(s.drop_last());
    }
}

impl Expr {
    /// The mathematical term this expression denotes.
    pub open spec fn view(&self) -> TermView
        decreases self,
    {
        match self {
            Expr::Variable { iden } => TermView::Var { name: iden@ },
            Expr::Functor { iden, args } => TermView::Fun { head: iden@, args: term_views(args@) },
        }
    }

    /// Structural copy; the copy denotes the same term.
    #[verifier::loop_isolation(false)]
    pub fn deep_clone(&self) -> (r: Expr)
        ensures
            r@ == self@,
        decreases self,
    {
        match self {
            Expr::Variable { iden } => Expr::Variable { iden: iden.clone() },
            Expr::Functor { iden, args } => {
                let mut new_args: Vec<Expr> = Vec::new();
                let mut k: usize = 0;
                while k < args.len()
                    invariant
                        k <= args.len(),
                        new_args@.len() == k as int,
                        forall|i: int| 0 <= i < k ==> new_args@[i]@ == args@[i]@,
                    decreases args.len() - k,
                {
                    let a = args[k].deep_clone();
                    new_args.push(a);
                    k += 1;
                }
                let r = Expr::Functor { iden: iden.clone(), args: new_args };
                proof {
                    lemma_term_views(args@);
                    lemma_term_views(r->Functor_args@);
                    assert(term_views(r->Functor_args@) =~= term_views(args@));
                }
                r
            },
        }
    }
}

/// Character-by-character equality of two string slices.
pub fn str_eq(a: &str, b: &str) -> (r: bool)
    ensures
        r == (a@ == b@),
{
    let an = a.unicode_len();
    let bn = b.unicode_len();
    if an != bn {
        proof {
            assert(a@ != b@);
        }
        return false;
    }
    let mut i: usize = 0;
    while i < an
        invariant
            i <= an,
            an == a@.len() == b@.len(),
            forall|j: int| 0 <= j < i ==> a@[j] == b@[j],
        decreases an - i,
    {
        if a.get_char(i) != b.get_char(i) {
            return false;
        }
        i += 1;
    }
    proof {
        assert(a@ =~= b@);
    }
    true
}

/// The infix operator symbol that a binary functor head is sugar for:
/// `add`, `sub`, `mul` and `div` print as `+`, `-`, `*` and `/`.
pub open spec fn binop_str(h: Seq<char>) -> Option<Seq<char>> {
    if h == "add"@ {
        Some("+"@)
    } else if h == "sub"@ {
        Some("-"@)
    } else if h == "mul"@ {
        Some("*"@)
    } else if h == "div"@ {
        Some("/"@)
    } else {
        None
    }
}

/// The pretty-printed form of a term: a variable is its name, a binary
/// operator functor of arity two prints infix, a `group` functor prints as
/// a parenthesized list, and any other functor as `head(arg, ..., arg)`.
pub open spec fn pretty(t: TermView) -> Seq<char>
    decreases t,
{
    match t {
        TermView::Var { name } => name,
        TermView::Fun { head, args } => {
            if binop_str(head) is Some && args.len() == 2 {
                pretty(args[0]) + " "@ + binop_str(head)->Some_0 + " "@ + pretty(args[1])
            } else if head == "group"@ {
                "("@ + pretty_args(args) + ")"@
            } else {
                head + "("@ + pretty_args(args) + ")"@
            }
        },
    }
}

/// Pretty-printed argument list: the terms in order, separated by `, `.
pub open spec fn pretty_args(s: Seq<TermView>) -> Seq<char>
    decreases s,
{
    if s.len() == 0 {
        Seq::empty()
    } else if s.len() == 1 {
        pretty(s[0])
    } else {
        pretty(s[0]) + ", "@ + pretty_args(s.drop_first())
    }
}

/// The fully parenthesized functor-prefix form of a term: every functor,
/// operator sugar included, prints as `head(arg, ..., arg)`.
pub open spec fn prefix_form(t: TermView) -> Seq<char>
    decreases t,
{
    match t {
        TermView::Var { name } => name,
        TermView::Fun { head, args } => head + "("@ + prefix_args(args) + ")"@,
    }
}

/// Prefix-form argument list: the terms in order, separated by `, `.
pub open spec fn prefix_args(s: Seq<TermView>) -> Seq<char>
    decreases s,
{
    if s.len() == 0 {
        Seq::empty()
    } else if s.len() == 1 {
        prefix_form(s[0])
    } else {
        prefix_form(s[0]) + ", "@ + prefix_args(s.drop_first())
    }
}

/// Whether the term holds a binary operator sub-functor anywhere.
pub open spec fn has_binop(t: TermView) -> bool
    decreases t,
{
    match t {
        TermView::Var { .. } => false,
        TermView::Fun { head, args } => (binop_str(head) is Some && args.len() == 2) || any_binop(
            args,
        ),
    }
}

/// Whether any term of the sequence holds a binary operator sub-functor.
pub open spec fn any_binop(s: Seq<TermView>) -> bool
    decreases s,
{
    if s.len() == 0 {
        false
    } else {
        any_binop(s.drop_last()) || has_binop(s.last())
    }
}

/// `any_binop` holds exactly when some element satisfies `has_binop`.
pub proof fn lemma_any_binop(s: Seq<TermView>)
    ensures
        any_binop(s) <==> exists|i: int| 0 <= i < s.len() && has_binop(#[trigger] s[i]),
    decreases s.len(),
{
    if s.len() > 0 {
        lemma_any_binop(s.drop_last());
        if any_binop(s) {
            if any_binop(s.drop_last()) {
                let i = choose|i: int|
                    0 <= i < s.drop_last().len() && has_binop(#[trigger] s.drop_last()[i]);
                assert(s[i] == s.drop_last()[i]);
                assert(has_binop(s[i]));
            } else {
                assert(has_binop(s[s.len() - 1]));
            }
        }
        if exists|i: int| 0 <= i < s.len() && has_binop(#[trigger] s[i]) {
            let i = choose|i: int| 0 <= i < s.len() && has_binop(#[trigger] s[i]);
            if i < s.len() - 1 {
                assert(s.drop_last()[i] == s[i]);
                assert(has_binop(s.drop_last()[i]));
            } else {
                assert(has_binop(s.last()));
            }
        }
    }
}

/// The decimal digit characters, least significant last.
pub open spec fn dec_digit_str(d: nat) -> Seq<char> {
    if d == 0 {
        "0"@
    } else if d == 1 {
        "1"@
    } else if d == 2 {
        "2"@
    } else if d == 3 {
        "3"@
    } else if d == 4 {
        "4"@
    } else if d == 5 {
        "5"@
    } else if d == 6 {
        "6"@
    } else if d == 7 {
        "7"@
    } else if d == 8 {
        "8"@
    } else {
        "9"@
    }
}

/// The decimal rendering of a number, without sign or leading zeros.
pub open spec fn dec_str(n: nat) -> Seq<char>
    decreases n,
    via dec_str_decreases
{
    if n < 10 {
        dec_digit_str(n)
    } else {
        dec_str(n / 10) + dec_digit_str(n % 10)
    }
}

#[via_fn]
proof fn dec_str_decreases(n: nat) {
    assert(n >= 10 ==> n / 10 < n) by (nonlinear_arith);
}

/// The decimal digit of a value below ten, as a string slice.
fn digit_str(d: usize) -> (r: &'static str)
    requires
        d < 10,
    ensures
        r@ == dec_digit_str(d as nat),
{
    if d == 0 {
        "0"
    } else if d == 1 {
        "1"
    } else if d == 2 {
        "2"
    } else if d == 3 {
        "3"
    } else if d == 4 {
        "4"
    } else if d == 5 {
        "5"
    } else if d == 6 {
        "6"
    } else if d == 7 {
        "7"
    } else if d == 8 {
        "8"
    } else {
        "9"
    }
}

/// Render a number in decimal.
pub fn usize_to_string(n: usize) -> (r: String)
    ensures
        r@ == dec_str(n as nat),
    decreases n,
{
    if n < 10 {
        let mut s = String::new();
        s.append(digit_str(n));
        s
    } else {
        proof {
            assert(n / 10 < n) by (nonlinear_arith)
                requires
                    n >= 10,
            ;
        }
        let mut s = usize_to_string(n / 10);
        s.append(digit_str(n % 10));
        s
    }
}

impl Expr {
    /// The operator symbol a binary functor head is sugar for, if any.
    pub fn get_binary_operator_str(iden: &str) -> (r: Option<&str>)
        ensures
            r is Some <==> binop_str(iden@) is Some,
            r matches Some(s) ==> s@ == binop_str(iden@)->Some_0,
    {
        if str_eq(iden, "add") {
            Some("+")
        } else if str_eq(iden, "sub") {
            Some("-")
        } else if str_eq(iden, "mul") {
            Some("*")
        } else if str_eq(iden, "div") {
            Some("/")
        } else {
            None
        }
    }

    /// The pretty-printed form: operator sugar infix, `group` as a
    /// parenthesized list, any other functor as `head(arg, ..., arg)`.
    pub fn to_string(&self) -> (r: String)
        ensures
            r@ == pretty(self@),
        decreases self, 0int,
    {
        match self {
            Expr::Variable { iden } => iden.clone(),
            Expr::Functor { iden, args } => {
                proof {
                    lemma_term_views(args@);
                }
                let op = Expr::get_binary_operator_str(iden.as_str());
                if op.is_some() && args.len() == 2 {
                    let mut res = args[0].to_string();
                    res.append(" ");
                    res.append(op.unwrap());
                    res.append(" ");
                    let tail = args[1].to_string();
                    res.append(tail.as_str());
                    proof {
                        assert(res@ =~= pretty(self@));
                    }
                    res
                } else if str_eq(iden.as_str(), "group") {
                    let mut res = String::new();
                    res.append("(");
                    let list = Self::args_to_string(args, 0);
                    res.append(list.as_str());
                    res.append(")");
                    proof {
                        assert(term_views(args@).skip(0) =~= term_views(args@));
                        assert(res@ =~= pretty(self@));
                    }
                    res
                } else {
                    let mut res = iden.clone();
                    res.append("(");
                    let list = Self::args_to_string(args, 0);
                    res.append(list.as_str());
                    res.append(")");
                    proof {
                        assert(term_views(args@).skip(0) =~= term_views(args@));
                        assert(res@ =~= pretty(self@));
                    }
                    res
                }
            },
        }
    }

    /// The pretty-printed argument list from position `k` on.
    fn args_to_string(args: &Vec<Expr>, k: usize) -> (r: String)
        requires
            k <= args@.len(),
        ensures
            r@ == pretty_args(term_views(args@).skip(k as int)),
        decreases args, args@.len() - k,
    {
        proof {
            lemma_term_views(args@);
        }
        let ghost tail = term_views(args@).skip(k as int);
        if k == args.len() {
            String::new()
        } else if k + 1 == args.len() {
            proof {
                assert(tail.len() == 1);
                assert(tail[0] == term_views(args@)[k as int]);
            }
            args[k].to_string()
        } else {
            proof {
                assert(tail[0] == term_views(args@)[k as int]);
                assert(tail.drop_first() =~= term_views(args@).skip(k as int + 1));
            }
            let mut res = args[k].to_string();
            res.append(", ");
            let rest = Self::args_to_string(args, k + 1);
            res.append(rest.as_str());
            res
        }
    }

    /// The fully parenthesized functor-prefix form, with no operator sugar.
    pub fn to_prefix_string(&self) -> (r: String)
        ensures
            r@ == prefix_form(self@),
        decreases self, 0int,
    {
        match self {
            Expr::Variable { iden } => iden.clone(),
            Expr::Functor { iden, args } => {
                proof {
                    lemma_term_views(args@);
                }
                let mut res = iden.clone();
                res.append("(");
                let list = Self::args_to_prefix_string(args, 0);
                res.append(list.as_str());
                res.append(")");
                proof {
                    assert(term_views(args@).skip(0) =~= term_views(args@));
                    assert(res@ =~= prefix_form(self@));
                }
                res
            },
        }
    }

    /// The prefix-form argument list from position `k` on.
    fn args_to_prefix_string(args: &Vec<Expr>, k: usize) -> (r: String)
        requires
            k <= args@.len(),
        ensures
            r@ == prefix_args(term_views(args@).skip(k as int)),
        decreases args, args@.len() - k,
    {
        proof {
            lemma_term_views(args@);
        }
        let ghost tail = term_views(args@).skip(k as int);
        if k == args.len() {
            String::new()
        } else if k + 1 == args.len() {
            proof {
                assert(tail.len() == 1);
                assert(tail[0] == term_views(args@)[k as int]);
            }
            args[k].to_prefix_string()
        } else {
            proof {
                assert(tail[0] == term_views(args@)[k as int]);
                assert(tail.drop_first() =~= term_views(args@).skip(k as int + 1));
            }
            let mut res = args[k].to_prefix_string();
            res.append(", ");
            let rest = Self::args_to_prefix_string(args, k + 1);
            res.append(rest.as_str());
            res
        }
    }
}

/// Whether the expression holds any binary operator sub-functor; the REPL
/// prints such terms in prefix form as well.
#[verifier::loop_isolation(false)]
pub fn find_binary_ops(expr: &Expr) -> (b: bool)
    ensures
        b == has_binop(expr@),
    decreases expr, 0int,
{
    match expr {
        Expr::Variable { .. } => false,
        Expr::Functor { iden, args } => {
            proof {
                lemma_term_views(args@);
                lemma_any_binop(term_views(args@));
            }
            let op = Expr::get_binary_operator_str(iden.as_str());
            if args.len() == 2 && op.is_some() {
                true
            } else {
                let mut k: usize = 0;
                while k < args.len()
                    invariant
                        k <= args@.len(),
                        forall|i: int|
                            0 <= i < k ==> !has_binop(#[trigger] term_views(args@)[i]),
                    decreases args@.len() - k,
                {
                    if find_binary_ops(&args[k]) {
                        proof {
                            assert(has_binop(term_views(args@)[k as int]));
                        }
                        return true;
                    }
                    k += 1;
                }
                false
            }
        },
    }
}

} // verus!
