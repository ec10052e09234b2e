//! The rewrite engine: one-level pattern matching, substitution, and
//! depth-controlled traversal over terms.

use vstd::prelude::*;
use crate::term::{Expr, TermView, term_views, lemma_term_views};

verus! {

broadcast use vstd::std_specs::vec::axiom_vec_index_decreases, vstd::std_specs::vec::axiom_vec_decreases_to_view, vstd::seq::axiom_seq_index_decreases;

/// A binding table: pattern-variable names mapped to subject sub-terms.
pub type BindMap = Map<Seq<char>, TermView>;

/// Number of nodes of a term; used as a termination measure.
pub open spec fn term_size(t: TermView) -> nat
    decreases t,
{
    match t {
        TermView::Var { .. } => 1,
        TermView::Fun { head, args } => 1 + seq_term_size(args),
    }
}

/// Total number of nodes of a sequence of terms.
pub open spec fn seq_term_size(s: Seq<TermView>) -> nat
    decreases s,
{
    if s.len() == 0 {
        0
    } else {
        seq_term_size(s.drop_last()) + term_size(s.last())
    }
}

/// Splitting the node count of a non-empty sequence at its first element.
pub proof fn lemma_seq_term_size_first(s: Seq<TermView>)
    requires
        s.len() > 0,
    ensures
        seq_term_size(s) == term_size(s[0]) + seq_term_size(s.drop_first()),
    decreases s.len(),
{
    if s.len() == 1 {
        assert(s.drop_last().len() == 0);
        assert(s.drop_first().len() == 0);
        assert(s.last() == s[0]);
        assert(seq_term_size(s.drop_first()) == 0);
        assert(seq_term_size(s.drop_last()) == 0);
        assert(seq_term_size(s) == seq_term_size(s.drop_last()) + term_size(s.last()));
    } else {
        lemma_seq_term_size_first(s.drop_last());
        assert(s.drop_last()[0] == s[0]);
        assert(s.drop_last().drop_first() =~= s.drop_first().drop_last());
        assert(s.drop_first().last() == s.last());
        assert(s.drop_first().len() > 0);
        assert(seq_term_size(s.drop_first()) == seq_term_size(s.drop_first().drop_last())
            + term_size(s.drop_first().last()));
    }
}

/// Every term has at least one node.
pub proof fn lemma_term_size_pos(t: TermView)
    ensures
        term_size(t) >= 1,
{
}

/// Build the binding table for paired argument sequences, walked in order,
/// starting from the table `b`. A pattern variable binds the paired subject
/// sub-term, a later binding of the same name silently overwriting an
/// earlier one. A functor pattern paired with a variable fails; a functor
/// pattern paired with a functor of the same head and arity binds through
/// their paired arguments, anything else fails. `None` is failure.
pub open spec fn fill_bindings(ls: Seq<TermView>, cs: Seq<TermView>, b: BindMap) -> Option<BindMap>
    decreases seq_term_size(ls), ls.len(),
    via fill_bindings_decreases
{
    if ls.len() == 0 || cs.len() == 0 {
        Some(b)
    } else {
        match (ls[0], cs[0]) {
            (TermView::Var { name }, _) => fill_bindings(
                ls.drop_first(),
                cs.drop_first(),
                b.insert(name, cs[0]),
            ),
            (TermView::Fun { .. }, TermView::Var { .. }) => None,
            (TermView::Fun { head: lh, args: la }, TermView::Fun { head: ch, args: ca }) => {
                if lh == ch && la.len() == ca.len() {
                    match fill_bindings(la, ca, b) {
                        Some(b2) => fill_bindings(ls.drop_first(), cs.drop_first(), b2),
                        None => None,
                    }
                } else {
                    None
                }
            },
        }
    }
}

#[via_fn]
proof fn fill_bindings_decreases(ls: Seq<TermView>, cs: Seq<TermView>, b: BindMap) {
    if ls.len() > 0 && cs.len() > 0 {
        lemma_seq_term_size_first(ls);
        lemma_term_size_pos(ls[0]);
    }
}

/// Instantiate the template `t` under the binding table `b`: a variable
/// whose name is bound becomes its image, any other variable is a free
/// symbol left unchanged, and a functor is rebuilt from its substituted
/// arguments. Substitution never fails.
pub open spec fn subst(t: TermView, b: BindMap) -> TermView
    decreases t,
{
    match t {
        TermView::Var { name } => if b.contains_key(name) {
            b[name]
        } else {
            t
        },
        TermView::Fun { head, args } => TermView::Fun { head, args: subst_all(args, b) },
    }
}

/// Substitution mapped over a sequence of terms, in order.
pub open spec fn subst_all(args: Seq<TermView>, b: BindMap) -> Seq<TermView>
    decreases args,
{
    if args.len() == 0 {
        Seq::empty()
    } else {
        subst_all(args.drop_last(), b).push(subst(args.last(), b))
    }
}

/// `subst_all` maps the substitution over the sequence elementwise.
pub broadcast proof fn lemma_subst_all(args: Seq<TermView>, b: BindMap)
    ensures
        #[trigger] subst_all(args, b).len() == args.len(),
        forall|i: int| 0 <= i < args.len() ==> subst_all(args, b)[i] == subst(args[i], b),
    decreases args.len(),
{
    if args.len() > 0 {
        lemma_subst_all(args.drop_last(), b);
    }
}

/// Match the root of the subject `c` against the pattern `l` and, on a
/// match, produce the instance of the template `r`; on no match return `c`
/// unchanged. The one special shape is a functor subject against a bare
/// variable pattern: every immediate argument that is a variable of that
/// name becomes the template, all other arguments are kept, with no
/// recursive descent.
pub open spec fn match_one(c: TermView, l: TermView, r: TermView) -> TermView {
    match (c, l) {
        (TermView::Var { name: cn }, TermView::Var { name: ln }) => if cn == ln {
            r
        } else {
            c
        },
        (TermView::Fun { head: ch, args: ca }, TermView::Fun { head: lh, args: la }) => {
            if ch == lh && ca.len() == la.len() {
                match fill_bindings(la, ca, Map::empty()) {
                    Some(b) => subst(r, b),
                    None => c,
                }
            } else {
                c
            }
        },
        (TermView::Var { .. }, TermView::Fun { .. }) => c,
        (TermView::Fun { head: ch, args: ca }, TermView::Var { name: ln }) => TermView::Fun {
            head: ch,
            args: Seq::new(
                ca.len(),
                |i: int|
                    if ca[i] matches TermView::Var { name } && name == ln {
                        r
                    } else {
                        ca[i]
                    },
            ),
        },
    }
}

/// Rewrite every sub-term of `c` at exactly depth `d` (edges from the root)
/// by `match_one` against `l` and `r`, in left-to-right order; a branch
/// that is a leaf before the depth is consumed is left unchanged, and the
/// replaced sub-terms are not re-scanned.
pub open spec fn traverse(c: TermView, l: TermView, r: TermView, d: nat) -> TermView
    decreases d, 0int,
{
    if d == 0 {
        match_one(c, l, r)
    } else {
        match c {
            TermView::Var { .. } => c,
            TermView::Fun { head, args } => TermView::Fun {
                head,
                args: traverse_all(args, l, r, (d - 1) as nat),
            },
        }
    }
}

/// The depth-controlled rewrite mapped over a sequence of terms, in order.
pub open spec fn traverse_all(s: Seq<TermView>, l: TermView, r: TermView, d: nat) -> Seq<
    TermView,
>
    decreases d, s.len(),
{
    if s.len() == 0 {
        Seq::empty()
    } else {
        traverse_all(s.drop_last(), l, r, d).push(traverse(s.last(), l, r, d))
    }
}

/// `traverse_all` maps the rewrite over the sequence elementwise.
pub broadcast proof fn lemma_traverse_all(s: Seq<TermView>, l: TermView, r: TermView, d: nat)
    ensures
        #[trigger] traverse_all(s, l, r, d).len() == s.len(),
        forall|i: int| 0 <= i < s.len() ==> traverse_all(s, l, r, d)[i] == traverse(s[i], l, r, d),
    decreases s.len(),
{
    if s.len() > 0 {
        lemma_traverse_all(s.drop_last(), l, r, d);
    }
}

/// Whether the pattern `l` structurally matches the root of the subject
/// `c`: equal variable names, functors of equal head and arity whose paired
/// arguments bind, or — for a bare variable pattern against a functor
/// subject — some immediate argument that is a variable of that name.
pub open spec fn root_matches(c: TermView, l: TermView) -> bool {
    match (c, l) {
        (TermView::Var { name: cn }, TermView::Var { name: ln }) => cn == ln,
        (TermView::Fun { head: ch, args: ca }, TermView::Fun { head: lh, args: la }) => ch == lh
            && ca.len() == la.len() && fill_bindings(la, ca, Map::empty()) is Some,
        (TermView::Var { .. }, TermView::Fun { .. }) => false,
        (TermView::Fun { head: ch, args: ca }, TermView::Var { name: ln }) => exists|i: int|
            0 <= i < ca.len() && (#[trigger] ca[i] matches TermView::Var { name } && name == ln),
    }
}

/// Identity on no-match: when the pattern does not structurally match the
/// root of the subject, `match_one` returns the subject unchanged, for any
/// template.
pub proof fn lemma_match_one_identity_on_no_match(c: TermView, l: TermView, r: TermView)
    requires
        !root_matches(c, l),
    ensures
        match_one(c, l, r) == c,
{
    match (c, l) {
        (TermView::Fun { head: ch, args: ca }, TermView::Var { name: ln }) => {
            assert(match_one(c, l, r)->Fun_args =~= ca);
        },
        _ => {},
    }
}

/// Reflexive replace: matching a variable against the same variable yields
/// the template itself, with no bindings involved.
pub proof fn lemma_match_one_reflexive(v: Seq<char>, r: TermView)
    ensures
        match_one(TermView::Var { name: v }, TermView::Var { name: v }, r) == r,
{
}

/// Depth-zero agreement: traversing at depth zero is exactly a root match.
pub proof fn lemma_traverse_depth_zero(c: TermView, l: TermView, r: TermView)
    ensures
        traverse(c, l, r, 0) == match_one(c, l, r),
{
}

/// Substitution under the empty table is the identity.
pub proof fn lemma_subst_empty(t: TermView)
    ensures
        subst(t, BindMap::empty()) == t,
    decreases t, 0int,
{
    match t {
        TermView::Var { .. } => {},
        TermView::Fun { head, args } => {
            lemma_subst_all_empty(args);
        },
    }
}

/// Substitution under the empty table is the identity, over a sequence.
pub proof fn lemma_subst_all_empty(s: Seq<TermView>)
    ensures
        subst_all(s, BindMap::empty()) == s,
    decreases s, s.len(),
{
    if s.len() > 0 {
        lemma_subst_all_empty(s.drop_last());
        lemma_subst_empty(s.last());
        assert(subst_all(s, BindMap::empty()) =~= s);
    } else {
        assert(subst_all(s, BindMap::empty()) =~= s);
    }
}

/// The substituter is a pure tree-map: a functor substitutes to the same
/// head over the elementwise substitution of its arguments.
pub proof fn lemma_subst_functor(h: Seq<char>, xs: Seq<TermView>, b: BindMap)
    ensures
        subst(TermView::Fun { head: h, args: xs }, b) == (TermView::Fun {
            head: h,
            args: subst_all(xs, b),
        }),
        subst_all(xs, b).len() == xs.len(),
        forall|i: int| 0 <= i < xs.len() ==> subst_all(xs, b)[i] == subst(xs[i], b),
{
    lemma_subst_all(xs, b);
}

/// Two terms agree on every node strictly shallower than `d`: either the
/// bound is spent, or both are equal leaves, or both are functors of one
/// head and arity whose paired arguments agree one level lower.
pub open spec fn same_upto(a: TermView, b: TermView, d: nat) -> bool
    decreases d, 0int,
{
    d == 0 || match (a, b) {
        (TermView::Var { name: an }, TermView::Var { name: bn }) => an == bn,
        (TermView::Fun { head: ah, args: aa }, TermView::Fun { head: bh, args: ba }) => ah == bh
            && aa.len() == ba.len() && all_same_upto(aa, ba, (d - 1) as nat),
        _ => false,
    }
}

/// Pairwise `same_upto` over two sequences of terms.
pub open spec fn all_same_upto(a: Seq<TermView>, b: Seq<TermView>, d: nat) -> bool
    decreases d, a.len(),
{
    a.len() == b.len() && (a.len() == 0 || (all_same_upto(a.drop_last(), b.drop_last(), d)
        && same_upto(a.last(), b.last(), d)))
}

/// Depth preservation of shape: the traversal leaves the path shape of
/// every node strictly shallower than the target depth unchanged.
pub proof fn lemma_traverse_preserves_shape(c: TermView, l: TermView, r: TermView, d: nat)
    ensures
        same_upto(c, traverse(c, l, r, d), d),
    decreases d, 0int,
{
    if d > 0 {
        match c {
            TermView::Var { .. } => {},
            TermView::Fun { head, args } => {
                lemma_traverse_all(args, l, r, (d - 1) as nat);
                lemma_all_traverse_preserves_shape(args, l, r, (d - 1) as nat);
            },
        }
    }
}

/// Depth preservation of shape, pairwise over a sequence of terms.
pub proof fn lemma_all_traverse_preserves_shape(s: Seq<TermView>, l: TermView, r: TermView, d: nat)
    ensures
        all_same_upto(s, traverse_all(s, l, r, d), d),
    decreases d, s.len(),
{
    if s.len() > 0 {
        lemma_all_traverse_preserves_shape(s.drop_last(), l, r, d);
        lemma_traverse_preserves_shape(s.last(), l, r, d);
        lemma_traverse_all(s, l, r, d);
        assert(traverse_all(s, l, r, d).drop_last() == traverse_all(s.drop_last(), l, r, d));
        assert(traverse_all(s, l, r, d).last() == traverse(s.last(), l, r, d));
    }
}

/// A whole sequence weighs at least as much as any one of its terms.
proof fn lemma_seq_term_size_elem(s: Seq<TermView>, i: int)
    requires
        0 <= i < s.len(),
    ensures
        seq_term_size(s) >= term_size(s[i]),
    decreases s.len(),
{
    if i == s.len() - 1 {
    } else {
        lemma_seq_term_size_elem(s.drop_last(), i);
    }
}

/// The binding table of one match: pattern-variable names paired with
/// subject sub-terms, kept in insertion order so that the latest binding of
/// a name wins.
pub struct Bindings {
    entries: Vec<(String, Expr)>,
}

/// The mapping an entry list denotes: entries applied left to right, a
/// later entry of a name overwriting an earlier one.
pub open spec fn map_of(s: Seq<(String, Expr)>) -> BindMap
    decreases s.len(),
{
    if s.len() == 0 {
        Map::empty()
    } else {
        map_of(s.drop_last()).insert(s.last().0@, s.last().1@)
    }
}

proof fn lemma_map_of_found(s: Seq<(String, Expr)>, i: int, key: Seq<char>)
    requires
        0 <= i < s.len(),
        s[i].0@ == key,
        forall|j: int| i < j < s.len() ==> s[j].0@ != key,
    ensures
        map_of(s).contains_key(key),
        map_of(s)[key] == s[i].1@,
    decreases s.len(),
{
    if i < s.len() - 1 {
        lemma_map_of_found(s.drop_last(), i, key);
    }
}

proof fn lemma_map_of_absent(s: Seq<(String, Expr)>, key: Seq<char>)
    requires
        forall|j: int| 0 <= j < s.len() ==> s[j].0@ != key,
    ensures
        !map_of(s).contains_key(key),
    decreases s.len(),
{
    if s.len() > 0 {
        lemma_map_of_absent(s.drop_last(), key);
    }
}

impl Bindings {
    /// The mapping this table denotes.
    pub closed spec fn view(&self) -> BindMap {
        map_of(self.entries@)
    }

    /// An empty table.
    pub fn new() -> (r: Bindings)
        ensures
            r@ == BindMap::empty(),
    {
        Bindings { entries: Vec::new() }
    }

    /// Bind `name` to `value`, overwriting any earlier binding of the name.
    pub fn insert(&mut self, name: String, value: Expr)
        ensures
            final(self)@ == old(self)@.insert(name@, value@),
    {
        self.entries.push((name, value));
        proof {
            assert(self.entries@.drop_last() =~= old(self).entries@);
        }
    }

    /// Look a name up; the latest binding of the name is returned.
    pub fn get(&self, name: &String) -> (r: Option<&Expr>)
        ensures
            match r {
                Some(e) => self@.contains_key(name@) && e@ == self@[name@],
                None => !self@.contains_key(name@),
            },
    {
        let mut i = self.entries.len();
        while i > 0
            invariant
                i <= self.entries.len(),
                forall|j: int| i <= j < self.entries@.len() ==> self.entries@[j].0@ != name@,
            decreases i,
        {
            i -= 1;
            if self.entries[i].0 == *name {
                proof {
                    lemma_map_of_found(self.entries@, i as int, name@);
                }
                return Some(&self.entries[i].1);
            }
        }
        proof {
            lemma_map_of_absent(self.entries@, name@);
        }
        None
    }
}

/// Walk the paired argument lists in order and extend `args_table` with the
/// bindings they induce, recursing through functor pairs of equal head and
/// arity; reports whether the whole walk succeeded. On failure the table is
/// left in an unspecified intermediate state and is discarded by callers.
#[verifier::loop_isolation(false)]
pub fn fill_pattern_mapping(cur_args: &Vec<Expr>, lhs_args: &Vec<Expr>, args_table: &mut Bindings) -> (ok: bool)
    ensures
        match fill_bindings(term_views(lhs_args@), term_views(cur_args@), old(args_table)@) {
            Some(m) => ok && final(args_table)@ == m,
            None => !ok,
        },
    decreases seq_term_size(term_views(lhs_args@)),
{
    proof {
        lemma_term_views(lhs_args@);
        lemma_term_views(cur_args@);
    }
    let ghost lv = term_views(lhs_args@);
    let ghost cv = term_views(cur_args@);
    let n = if lhs_args.len() < cur_args.len() {
        lhs_args.len()
    } else {
        cur_args.len()
    };
    proof {
        assert(lv.skip(0) =~= lv);
        assert(cv.skip(0) =~= cv);
    }
    let mut k: usize = 0;
    while k < n
        invariant
            k <= n,
            fill_bindings(lv, cv, old(args_table)@) == fill_bindings(
                lv.skip(k as int),
                cv.skip(k as int),
                args_table@,
            ),
        decreases n - k,
    {
        proof {
            assert(lv.skip(k as int)[0] == lv[k as int]);
            assert(cv.skip(k as int)[0] == cv[k as int]);
            assert(lv.skip(k as int).drop_first() =~= lv.skip(k as int + 1));
            assert(cv.skip(k as int).drop_first() =~= cv.skip(k as int + 1));
        }
        match (&lhs_args[k], &cur_args[k]) {
            (Expr::Variable { iden }, _) => {
                let bound = cur_args[k].deep_clone();
                args_table.insert(iden.clone(), bound);
            },
            (Expr::Functor { .. }, Expr::Variable { .. }) => {
                return false;
            },
            (
                Expr::Functor { iden: lhs_iden, args: l_args },
                Expr::Functor { iden: cur_iden, args: c_args },
            ) => {
                proof {
                    lemma_seq_term_size_elem(lv, k as int);
                    lemma_term_views(l_args@);
                    lemma_term_views(c_args@);
                    assert(lv[k as int] == TermView::Fun {
                        head: lhs_iden@,
                        args: term_views(l_args@),
                    });
                    assert(cv[k as int] == TermView::Fun {
                        head: cur_iden@,
                        args: term_views(c_args@),
                    });
                }
                if *cur_iden == *lhs_iden && c_args.len() == l_args.len() {
                    let nested_ok = fill_pattern_mapping(c_args, l_args, args_table);
                    if !nested_ok {
                        return false;
                    }
                } else {
                    return false;
                }
            },
        }
        k += 1;
    }
    proof {
        assert(lv.skip(k as int).len() == 0 || cv.skip(k as int).len() == 0);
    }
    true
}

/// Instantiate the template `right` under the binding table: bound
/// variables become deep copies of their images, free variables and functor
/// shells are rebuilt unchanged. Substitution never fails.
#[verifier::loop_isolation(false)]
pub fn construct_rhs(right: &Expr, args_table: &Bindings) -> (r: Expr)
    ensures
        r@ == subst(right@, args_table@),
    decreases right,
{
    match right {
        Expr::Variable { iden } => {
            match args_table.get(iden) {
                Some(image) => image.deep_clone(),
                None => Expr::Variable { iden: iden.clone() },
            }
        },
        Expr::Functor { iden, args } => {
            let mut new_args: Vec<Expr> = Vec::new();
            let mut k: usize = 0;
            while k < args.len()
                invariant
                    k <= args.len(),
                    new_args@.len() == k as int,
                    forall|i: int|
                        0 <= i < k ==> new_args@[i]@ == subst(args@[i]@, args_table@),
                decreases args.len() - k,
            {
                let a = construct_rhs(&args[k], args_table);
                new_args.push(a);
                k += 1;
            }
            let r = Expr::Functor { iden: iden.clone(), args: new_args };
            proof {
                lemma_term_views(args@);
                lemma_term_views(r->Functor_args@);
                lemma_subst_all(term_views(args@), args_table@);
                assert(term_views(r->Functor_args@) =~= subst_all(
                    term_views(args@),
                    args_table@,
                ));
            }
            r
        },
    }
}

/// Match the root of `current_expr` against the pattern `left` and, on a
/// match, produce the instance of the template `right`; on no match return
/// the input unchanged. Matching never fails.
#[verifier::loop_isolation(false)]
pub fn match_patterns(current_expr: Expr, left: &Expr, right: &Expr) -> (r: Expr)
    ensures
        r@ == match_one(current_expr@, left@, right@),
{
    let ghost c0 = current_expr@;
    match (current_expr, left) {
        (Expr::Variable { iden: current }, Expr::Variable { iden: lhs }) => {
            proof {
                assert(c0 == TermView::Var { name: current@ });
            }
            if current == *lhs {
                right.deep_clone()
            } else {
                Expr::Variable { iden: current }
            }
        },
        (
            Expr::Functor { iden: current_iden, args: current_args },
            Expr::Functor { iden: lhs_iden, args: lhs_args },
        ) => {
            proof {
                lemma_term_views(current_args@);
                lemma_term_views(lhs_args@);
                assert(c0 == TermView::Fun {
                    head: current_iden@,
                    args: term_views(current_args@),
                });
                assert(left@ == TermView::Fun {
                    head: lhs_iden@,
                    args: term_views(lhs_args@),
                });
            }
            if current_iden == *lhs_iden && current_args.len() == lhs_args.len() {
                let mut args_table = Bindings::new();
                let is_match = fill_pattern_mapping(&current_args, lhs_args, &mut args_table);
                if is_match {
                    construct_rhs(right, &args_table)
                } else {
                    Expr::Functor { iden: current_iden, args: current_args }
                }
            } else {
                Expr::Functor { iden: current_iden, args: current_args }
            }
        },
        (cur @ Expr::Variable { .. }, Expr::Functor { .. }) => cur,
        (
            Expr::Functor { iden: current_iden, args: current_args },
            Expr::Variable { iden: lhs_iden },
        ) => {
            let ghost cv = term_views(current_args@);
            proof {
                lemma_term_views(current_args@);
                assert(c0 == TermView::Fun { head: current_iden@, args: cv });
                assert(left@ == TermView::Var { name: lhs_iden@ });
            }
            let mut new_args: Vec<Expr> = Vec::new();
            let mut k: usize = 0;
            while k < current_args.len()
                invariant
                    k <= current_args.len(),
                    new_args@.len() == k as int,
                    forall|i: int|
                        0 <= i < k ==> new_args@[i]@ == (if cv[i] matches TermView::Var { name }
                            && name == lhs_iden@ {
                            right@
                        } else {
                            cv[i]
                        }),
                decreases current_args.len() - k,
            {
                match &current_args[k] {
                    Expr::Variable { iden } => {
                        if *iden == *lhs_iden {
                            new_args.push(right.deep_clone());
                        } else {
                            new_args.push(Expr::Variable { iden: iden.clone() });
                        }
                    },
                    arg => {
                        new_args.push(arg.deep_clone());
                    },
                }
                k += 1;
            }
            let r = Expr::Functor { iden: current_iden, args: new_args };
            proof {
                lemma_term_views(r->Functor_args@);
                assert(match_one(c0, left@, right@) matches TermView::Fun { head, args }
                    && head == current_iden@ && args.len() == cv.len());
                assert(term_views(r->Functor_args@) =~= match_one(c0, left@, right@)->Fun_args);
            }
            r
        },
    }
}

/// Rewrite every sub-term of `current_expr` at exactly `depth` edges from
/// the root by matching it against `left` and instantiating `right`, in
/// left-to-right order; branches shorter than the depth are left unchanged.
#[verifier::loop_isolation(false)]
pub fn ast_traverse_match(current_expr: Expr, left: &Expr, right: &Expr, depth: usize) -> (r: Expr)
    ensures
        r@ == traverse(current_expr@, left@, right@, depth as nat),
    decreases depth,
{
    let ghost c0 = current_expr@;
    if depth == 0 {
        match_patterns(current_expr, left, right)
    } else {
        match current_expr {
            cur @ Expr::Variable { .. } => cur,
            Expr::Functor { iden, args } => {
                let ghost full = term_views(args@);
                proof {
                    lemma_term_views(args@);
                    assert(c0 == TermView::Fun { head: iden@, args: full });
                }
                let mut new_args: Vec<Expr> = Vec::new();
                let mut k: usize = 0;
                while k < args.len()
                    invariant
                        k <= args.len(),
                        new_args@.len() == k as int,
                        forall|i: int|
                            0 <= i < k ==> new_args@[i]@ == traverse(
                                full[i],
                                left@,
                                right@,
                                (depth - 1) as nat,
                            ),
                    decreases args.len() - k,
                {
                    let a = args[k].deep_clone();
                    let done = ast_traverse_match(a, left, right, depth - 1);
                    new_args.push(done);
                    k += 1;
                }
                let r = Expr::Functor { iden, args: new_args };
                proof {
                    lemma_term_views(r->Functor_args@);
                    lemma_traverse_all(full, left@, right@, (depth - 1) as nat);
                    assert(term_views(r->Functor_args@) =~= traverse_all(
                        full,
                        left@,
                        right@,
                        (depth - 1) as nat,
                    ));
                }
                r
            },
        }
    }
}

} // verus!
