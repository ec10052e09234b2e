//! The session machine: a global state and a matching state, a history of
//! rewritten terms, a table of named rules, a derivation log, and the
//! transcript of a session.

use vstd::prelude::*;
use crate::term::{Expr, TermView, term_views, lemma_term_views, pretty, dec_str, usize_to_string};
use crate::engine::{traverse, ast_traverse_match};
use crate::parser::{Stmt, StmtView, stmt_views, lemma_stmt_views};
use crate::error::{Warning, WarningView};

verus! {

broadcast use vstd::std_specs::vec::axiom_vec_index_decreases, vstd::std_specs::vec::axiom_vec_decreases_to_view, vstd::seq::axiom_seq_index_decreases;

/// The terms denoted by a derivation log, in order.
pub open spec fn deriv_views(s: Seq<(Expr, Expr, usize)>) -> Seq<(TermView, TermView, nat)>
    decreases s.len(),
{
    if s.len() == 0 {
        Seq::empty()
    } else {
        deriv_views(s.drop_last()).push(
            (s.last().0@, s.last().1@, s.last().2 as nat),
        )
    }
}

/// `deriv_views` maps the denotation over the log elementwise.
pub broadcast proof fn lemma_deriv_views(s: Seq<(Expr, Expr, usize)>)
    ensures
        #[trigger] deriv_views(s).len() == s.len(),
        forall|i: int|
            0 <= i < s.len() ==> deriv_views(s)[i] == (s[i].0@, s[i].1@, s[i].2 as nat),
    decreases s.len(),
{
    if s.len() > 0 {
        lemma_deriv_views(s.drop_last());
    }
}

/// The views of a warning list, in order.
pub open spec fn warning_views(s: Seq<Warning>) -> Seq<WarningView>
    decreases s.len(),
{
    if s.len() == 0 {
        Seq::empty()
    } else {
        warning_views(s.drop_last()).push(s.last()@)
    }
}

/// The views of a transcript export list, in order: each entry is a file
/// path paired with the transcript text written to it.
pub open spec fn export_views(s: Seq<(String, String)>) -> Seq<(Seq<char>, Seq<char>)>
    decreases s.len(),
{
    if s.len() == 0 {
        Seq::empty()
    } else {
        export_views(s.drop_last()).push((s.last().0@, s.last().1@))
    }
}

/// Mathematical model of the session machine's state.
#[verifier::ext_equal]
pub struct EnvView {
    /// Terms of the current session, the anchor first, the current term last.
    pub history: Seq<TermView>,
    /// The rule that produced each term of the history after the anchor.
    pub derivation: Seq<(TermView, TermView, nat)>,
    /// Whether a matching session is open.
    pub matching: bool,
    /// The named rules, a later definition of a name overwriting an earlier.
    pub rules: Map<Seq<char>, (TermView, TermView)>,
    /// Warnings accumulated and not yet drained.
    pub warnings: Seq<WarningView>,
}

/// The state invariants that hold at every statement boundary: the machine
/// is matching exactly when the history is non-empty, and the derivation
/// log is one entry shorter than the history of a session.
pub open spec fn env_inv(s: EnvView) -> bool {
    &&& s.matching <==> s.history.len() > 0
    &&& s.derivation.len() == if s.history.len() == 0 {
        0int
    } else {
        s.history.len() - 1
    }
}

/// The named-rule table: rule names mapped to pattern and template, a later
/// definition of a name overwriting an earlier one.
pub struct RuleTable {
    entries: Vec<(String, Expr, Expr)>,
}

/// The mapping a rule entry list denotes: entries applied left to right.
pub open spec fn rule_map_of(s: Seq<(String, Expr, Expr)>) -> Map<Seq<char>, (TermView, TermView)>
    decreases s.len(),
{
    if s.len() == 0 {
        Map::empty()
    } else {
        rule_map_of(s.drop_last()).insert(s.last().0@, (s.last().1@, s.last().2@))
    }
}

proof fn lemma_rule_map_found(s: Seq<(String, Expr, Expr)>, i: int, key: Seq<char>)
    requires
        0 <= i < s.len(),
        s[i].0@ == key,
        forall|j: int| i < j < s.len() ==> s[j].0@ != key,
    ensures
        rule_map_of(s).contains_key(key),
        rule_map_of(s)[key] == (s[i].1@, s[i].2@),
    decreases s.len(),
{
    if i < s.len() - 1 {
        lemma_rule_map_found(s.drop_last(), i, key);
    }
}

proof fn lemma_rule_map_absent(s: Seq<(String, Expr, Expr)>, key: Seq<char>)
    requires
        forall|j: int| 0 <= j < s.len() ==> s[j].0@ != key,
    ensures
        !rule_map_of(s).contains_key(key),
    decreases s.len(),
{
    if s.len() > 0 {
        lemma_rule_map_absent(s.drop_last(), key);
    }
}

impl RuleTable {
    /// The mapping this table denotes.
    pub closed spec fn view(&self) -> Map<Seq<char>, (TermView, TermView)> {
        rule_map_of(self.entries@)
    }

    /// An empty table.
    pub fn new() -> (r: RuleTable)
        ensures
            r@ == Map::<Seq<char>, (TermView, TermView)>::empty(),
    {
        RuleTable { entries: Vec::new() }
    }

    /// Define `name` as the rule `left => right`, overwriting any earlier
    /// rule of that name.
    pub fn insert(&mut self, name: String, left: Expr, right: Expr)
        ensures
            final(self)@ == old(self)@.insert(name@, (left@, right@)),
    {
        self.entries.push((name, left, right));
        proof {
            assert(self.entries@.drop_last() =~= old(self).entries@);
        }
    }

    /// Look a rule up by name; the latest definition of the name is returned.
    pub fn get(&self, name: &String) -> (r: Option<(&Expr, &Expr)>)
        ensures
            match r {
                Some((l, rt)) => self@.contains_key(name@) && l@ == self@[name@].0 && rt@
                    == self@[name@].1,
                None => !self@.contains_key(name@),
            },
    {
        let mut i = self.entries.len();
        while i > 0
            invariant
                i <= self.entries.len(),
                forall|j: int| i <= j < self.entries@.len() ==> self.entries@[j].0@ != name@,
            decreases i,
        {
            i -= 1;
            if self.entries[i].0 == *name {
                proof {
                    lemma_rule_map_found(self.entries@, i as int, name@);
                }
                return Some((&self.entries[i].1, &self.entries[i].2));
            }
        }
        proof {
            lemma_rule_map_absent(self.entries@, name@);
        }
        None
    }
}

/// One step of the session machine: the state after a statement. A define
/// installs its rule in either state. An expression opens a session in the
/// global state and warns in a session. A named or in-line rule application
/// in a session rewrites the current term at the given depth and logs the
/// rule; out of a session, or naming an undefined rule, it warns. An end
/// closes the session, clearing history and derivation; in the global state
/// it warns.
pub open spec fn step(s: EnvView, stmt: StmtView) -> EnvView {
    match stmt {
        StmtView::ExprStmt(e) => if s.matching {
            EnvView { warnings: s.warnings.push(WarningView::ExprHasNoEffect), ..s }
        } else {
            EnvView { history: s.history.push(e), matching: true, ..s }
        },
        StmtView::ApplyStmt { iden, depth } => if !s.matching {
            EnvView { warnings: s.warnings.push(WarningView::ApplyRuleNoEffect), ..s }
        } else if s.rules.contains_key(iden) {
            EnvView {
                history: s.history.push(
                    traverse(s.history.last(), s.rules[iden].0, s.rules[iden].1, depth),
                ),
                derivation: s.derivation.push((s.rules[iden].0, s.rules[iden].1, depth)),
                ..s
            }
        } else {
            EnvView { warnings: s.warnings.push(WarningView::RuleDoesNotExist(iden)), ..s }
        },
        StmtView::RuleStmt { left, right, depth } => if !s.matching {
            EnvView { warnings: s.warnings.push(WarningView::InLineRuleNoEffect), ..s }
        } else {
            EnvView {
                history: s.history.push(traverse(s.history.last(), left, right, depth)),
                derivation: s.derivation.push((left, right, depth)),
                ..s
            }
        },
        StmtView::DefineStmt { iden, left, right } => EnvView {
            rules: s.rules.insert(iden, (left, right)),
            ..s
        },
        StmtView::EndStmt(_) => if !s.matching {
            EnvView { warnings: s.warnings.push(WarningView::EndStmtHasNoEffect), ..s }
        } else {
            EnvView { history: Seq::empty(), derivation: Seq::empty(), matching: false, ..s }
        },
    }
}

/// One transcript entry: the `k`-th rewrite, numbered from one, naming the
/// rule and depth applied and showing the resulting term.
pub open spec fn transcript_line(
    history: Seq<TermView>,
    deriv: Seq<(TermView, TermView, nat)>,
    k: nat,
) -> Seq<char> {
    "\n"@ + dec_str(k + 1) + ". Applying rule: "@ + pretty(deriv[k as int].0) + " => "@ + pretty(
        deriv[k as int].1,
    ) + " at depth "@ + dec_str(deriv[k as int].2) + ", results in:\n    "@ + pretty(
        history[k as int + 1],
    ) + "\n"@
}

/// The transcript entries from the `k`-th rewrite on.
pub open spec fn transcript_lines(
    history: Seq<TermView>,
    deriv: Seq<(TermView, TermView, nat)>,
    k: nat,
) -> Seq<char>
    decreases deriv.len() - k,
{
    if k >= deriv.len() || k + 1 >= history.len() {
        Seq::empty()
    } else {
        transcript_line(history, deriv, k) + transcript_lines(history, deriv, k + 1)
    }
}

/// The transcript of a session: the anchor, each rewrite in order, and the
/// resulting term.
pub open spec fn transcript_of(
    history: Seq<TermView>,
    deriv: Seq<(TermView, TermView, nat)>,
) -> Seq<char> {
    "Start pattern matching on "@ + pretty(history[0]) + "\n"@ + transcript_lines(history, deriv, 0)
        + "\nResult: "@ + pretty(history.last())
}

/// The transcript export a statement causes, if any: an end statement with
/// a path, in a session, writes the session's transcript to that path.
pub open spec fn step_export(s: EnvView, stmt: StmtView) -> Option<(Seq<char>, Seq<char>)> {
    match stmt {
        StmtView::EndStmt(Some(path)) => if s.matching {
            Some((path, transcript_of(s.history, s.derivation)))
        } else {
            None
        },
        _ => None,
    }
}

/// One undo: with more than the anchor in the history, drop the last term
/// and the rule that produced it; otherwise change nothing.
pub open spec fn pop_state(s: EnvView) -> EnvView {
    if s.history.len() > 1 {
        EnvView {
            history: s.history.drop_last(),
            derivation: if s.derivation.len() > 0 {
                s.derivation.drop_last()
            } else {
                s.derivation
            },
            ..s
        }
    } else {
        s
    }
}

/// The state after a whole statement list, first statement first.
pub open spec fn run(s: EnvView, stmts: Seq<StmtView>) -> EnvView
    decreases stmts.len(),
{
    if stmts.len() == 0 {
        s
    } else {
        run(step(s, stmts[0]), stmts.drop_first())
    }
}

/// The transcript exports a whole statement list causes, in order.
pub open spec fn run_exports(s: EnvView, stmts: Seq<StmtView>) -> Seq<(Seq<char>, Seq<char>)>
    decreases stmts.len(),
{
    if stmts.len() == 0 {
        Seq::empty()
    } else {
        (match step_export(s, stmts[0]) {
            Some(e) => seq![e],
            None => Seq::empty(),
        }) + run_exports(step(s, stmts[0]), stmts.drop_first())
    }
}

/// The state invariants hold after any statement: one step of the machine
/// preserves them.
pub proof fn lemma_step_preserves_inv(s: EnvView, stmt: StmtView)
    requires
        env_inv(s),
    ensures
        env_inv(step(s, stmt)),
{
}

/// The state invariants hold across every sequence of statements.
pub proof fn lemma_run_preserves_inv(s: EnvView, stmts: Seq<StmtView>)
    requires
        env_inv(s),
    ensures
        env_inv(run(s, stmts)),
    decreases stmts.len(),
{
    if stmts.len() > 0 {
        lemma_step_preserves_inv(s, stmts[0]);
        lemma_run_preserves_inv(step(s, stmts[0]), stmts.drop_first());
    }
}

/// History and derivation stay coupled: after any statement in a session,
/// the derivation log is exactly one entry shorter than the history.
pub proof fn lemma_history_derivation_coupling(s: EnvView, stmt: StmtView)
    requires
        env_inv(s),
    ensures
        step(s, stmt).matching ==> step(s, stmt).derivation.len() == step(s, stmt).history.len()
            - 1,
{
    lemma_step_preserves_inv(s, stmt);
}

/// The rule table is unaffected by session transitions: only a define
/// changes it, and an undo never does.
pub proof fn lemma_rules_unaffected(s: EnvView, stmt: StmtView)
    requires
        !(stmt is DefineStmt),
    ensures
        step(s, stmt).rules == s.rules,
        pop_state(s).rules == s.rules,
{
}

/// Terms already recorded are never altered: any statement but a session
/// end leaves every existing history entry in place, and an end only
/// clears; new terms are produced, never mutated in place.
pub proof fn lemma_history_entries_stable(s: EnvView, stmt: StmtView)
    ensures
        !(stmt is EndStmt) ==> step(s, stmt).history.len() >= s.history.len() && (forall|i: int|
            0 <= i < s.history.len() ==> step(s, stmt).history[i] == s.history[i]),
        (stmt is EndStmt && s.matching) ==> step(s, stmt).history.len() == 0,
{
}

/// Undo is a left inverse of one rewrite: in a session, applying an in-line
/// rule, or a named rule that is defined, and then undoing, restores the
/// machine's state exactly.
pub proof fn lemma_undo_after_rewrite(s: EnvView, stmt: StmtView)
    requires
        env_inv(s),
        s.matching,
        (stmt is RuleStmt) || (stmt matches StmtView::ApplyStmt { iden, .. }
            && s.rules.contains_key(iden)),
    ensures
        pop_state(step(s, stmt)) == s,
{
    let s2 = step(s, stmt);
    assert(s2.history.drop_last() =~= s.history);
    assert(s2.derivation.drop_last() =~= s.derivation);
    assert(pop_state(s2) =~= s);
}

/// What a statement asks the caller to present: nothing beyond warnings, a
/// freshly opened session, a rewritten current term, or a closed session
/// with its resulting term and, when a path was given, the transcript to
/// write there.
pub enum StepEffect {
    Quiet,
    Started,
    Stepped,
    Ended { result: Expr, export: Option<(String, String)> },
}

/// The session machine's state: the term history and derivation log of the
/// open session, the mode, the named rules, and pending warnings.
pub struct Env {
    /// Terms of the current session, the anchor first, the current term last.
    pub history: Vec<Expr>,
    /// The rule and depth that produced each term after the anchor.
    pub derivation_history: Vec<(Expr, Expr, usize)>,
    /// True in a matching session, false in the global state.
    pub is_matching: bool,
    /// The named rewrite rules; definitions persist across sessions.
    pub rules: RuleTable,
    /// Warnings to be shown to the user and drained by the caller.
    pub warnings: Vec<Warning>,
}

impl Env {
    /// The state this machine denotes.
    pub open spec fn view(&self) -> EnvView {
        EnvView {
            history: term_views(self.history@),
            derivation: deriv_views(self.derivation_history@),
            matching: self.is_matching,
            rules: self.rules@,
            warnings: warning_views(self.warnings@),
        }
    }

    /// A fresh machine: global state, nothing recorded, no rules.
    pub fn new() -> (r: Env)
        ensures
            r@ == (EnvView {
                history: Seq::empty(),
                derivation: Seq::empty(),
                matching: false,
                rules: Map::empty(),
                warnings: Seq::empty(),
            }),
            env_inv(r@),
    {
        Env {
            history: vec![],
            derivation_history: vec![],
            is_matching: false,
            rules: RuleTable::new(),
            warnings: vec![],
        }
    }

    /// The current term of the session: the top of the history.
    pub fn get_expr(&self) -> (r: Option<&Expr>)
        ensures
            match r {
                Some(e) => self@.history.len() > 0 && e@ == self@.history.last(),
                None => self@.history.len() == 0,
            },
    {
        proof {
            lemma_term_views(self.history@);
        }
        if self.history.len() == 0 {
            None
        } else {
            Some(&self.history[self.history.len() - 1])
        }
    }

    /// The transcript of the open session, in its export form.
    #[verifier::loop_isolation(false)]
    #[verifier::rlimit(60)]
    fn render_transcript(&self) -> (r: String)
        requires
            self@.history.len() >= 1,
            self@.derivation.len() == self@.history.len() - 1,
        ensures
            r@ == transcript_of(self@.history, self@.derivation),
    {
        proof {
            lemma_term_views(self.history@);
            lemma_deriv_views(self.derivation_history@);
        }
        let ghost h = self@.history;
        let ghost d = self@.derivation;
        let ghost head = "Start pattern matching on "@ + pretty(h[0]) + "\n"@;
        let mut res = String::from_str("Start pattern matching on ");
        let anchor = self.history[0].to_string();
        res.append(anchor.as_str());
        res.append("\n");
        let mut k: usize = 0;
        while k < self.derivation_history.len()
            invariant
                k <= self.derivation_history@.len(),
                res@ + transcript_lines(h, d, k as nat) == head + transcript_lines(h, d, 0),
            decreases self.derivation_history@.len() - k,
        {
            let ghost res0 = res@;
            let mut line = String::from_str("\n");
            let num = usize_to_string(k + 1);
            line.append(num.as_str());
            line.append(". Applying rule: ");
            let lhs = self.derivation_history[k].0.to_string();
            line.append(lhs.as_str());
            line.append(" => ");
            let rhs = self.derivation_history[k].1.to_string();
            line.append(rhs.as_str());
            line.append(" at depth ");
            let dep = usize_to_string(self.derivation_history[k].2);
            line.append(dep.as_str());
            line.append(", results in:\n    ");
            let shown = self.history[k + 1].to_string();
            line.append(shown.as_str());
            line.append("\n");
            proof {
                assert(d[k as int] == (
                    self.derivation_history@[k as int].0@,
                    self.derivation_history@[k as int].1@,
                    self.derivation_history@[k as int].2 as nat,
                ));
                assert(h[k as int + 1] == self.history@[k as int + 1]@);
                assert(line@ == transcript_line(h, d, k as nat));
            }
            res.append(line.as_str());
            proof {
                assert(res@ + transcript_lines(h, d, (k + 1) as nat) =~= res0
                    + transcript_lines(h, d, k as nat));
            }
            k += 1;
        }
        proof {
            assert(res@ + transcript_lines(h, d, k as nat) =~= res@);
        }
        res.append("\nResult: ");
        let last = self.history[self.history.len() - 1].to_string();
        res.append(last.as_str());
        proof {
            assert(h.last() == h[h.len() - 1]);
        }
        res
    }

    /// Dispatch one statement: mutate the state as `step` says and report
    /// what the caller should present. A define installs its rule; an
    /// expression opens a session in the global state; a named or in-line
    /// rule in a session rewrites the current term at the given depth and
    /// logs the rule; an end closes the session, rendering the transcript
    /// when a path was given. Statements with no effect in the current
    /// state, and applications of undefined rules, only add a warning.
    pub fn interpret_stmt(&mut self, stmt: Stmt) -> (eff: StepEffect)
        requires
            env_inv(old(self)@),
        ensures
            final(self)@ == step(old(self)@, stmt@),
            env_inv(final(self)@),
            eff is Started <==> (stmt@ is ExprStmt && !old(self)@.matching),
            eff is Stepped <==> ((stmt@ is RuleStmt && old(self)@.matching) || (stmt@ matches
            StmtView::ApplyStmt { iden, .. } && old(self)@.matching
                && old(self)@.rules.contains_key(iden))),
            eff is Ended <==> (stmt@ is EndStmt && old(self)@.matching),
            (eff matches StepEffect::Ended { result, export } ==> result@
                == old(self)@.history.last() && (match step_export(old(self)@, stmt@) {
                Some(pt) => export matches Some(e) && e.0@ == pt.0 && e.1@ == pt.1,
                None => export is None,
            })),
    {
        proof {
            lemma_step_preserves_inv(old(self)@, stmt@);
            lemma_term_views(self.history@);
            lemma_deriv_views(self.derivation_history@);
        }
        let ghost s0 = self@;
        let ghost st = stmt@;
        match stmt {
            Stmt::ExprStmt(e) => {
                if self.is_matching {
                    self.warnings.push(Warning::ExprHasNoEffect);
                    proof {
                        assert(self.warnings@.drop_last() =~= old(self).warnings@);
                        assert(self@ =~= step(s0, st));
                    }
                    StepEffect::Quiet
                } else {
                    self.history.push(e);
                    self.is_matching = true;
                    proof {
                        assert(self.history@.drop_last() =~= old(self).history@);
                        assert(self@ =~= step(s0, st));
                    }
                    StepEffect::Started
                }
            },
            Stmt::ApplyStmt { iden, depth } => {
                if self.is_matching {
                    let looked: Option<(Expr, Expr)> = match self.rules.get(&iden) {
                        Some((l, r)) => Some((l.deep_clone(), r.deep_clone())),
                        None => None,
                    };
                    match looked {
                        Some((l, r)) => {
                            let top = self.history[self.history.len() - 1].deep_clone();
                            let new_top = ast_traverse_match(top, &l, &r, depth);
                            self.history.push(new_top);
                            self.derivation_history.push((l, r, depth));
                            proof {
                                assert(self.history@.drop_last() =~= old(self).history@);
                                assert(self.derivation_history@.drop_last() =~= old(
                                    self,
                                ).derivation_history@);
                                assert(self@ =~= step(s0, st));
                            }
                            StepEffect::Stepped
                        },
                        None => {
                            self.warnings.push(Warning::RuleDoesNotExist(iden));
                            proof {
                                assert(self.warnings@.drop_last() =~= old(self).warnings@);
                                assert(self@ =~= step(s0, st));
                            }
                            StepEffect::Quiet
                        },
                    }
                } else {
                    self.warnings.push(Warning::ApplyRuleNoEffect);
                    proof {
                        assert(self.warnings@.drop_last() =~= old(self).warnings@);
                        assert(self@ =~= step(s0, st));
                    }
                    StepEffect::Quiet
                }
            },
            Stmt::RuleStmt { left, right, depth } => {
                if self.is_matching {
                    let top = self.history[self.history.len() - 1].deep_clone();
                    let new_top = ast_traverse_match(top, &left, &right, depth);
                    self.history.push(new_top);
                    self.derivation_history.push((left, right, depth));
                    proof {
                        assert(self.history@.drop_last() =~= old(self).history@);
                        assert(self.derivation_history@.drop_last() =~= old(
                            self,
                        ).derivation_history@);
                        assert(self@ =~= step(s0, st));
                    }
                    StepEffect::Stepped
                } else {
                    self.warnings.push(Warning::InLineRuleNoEffect);
                    proof {
                        assert(self.warnings@.drop_last() =~= old(self).warnings@);
                        assert(self@ =~= step(s0, st));
                    }
                    StepEffect::Quiet
                }
            },
            Stmt::DefineStmt { iden, left, right } => {
                self.rules.insert(iden, left, right);
                proof {
                    assert(self@ =~= step(s0, st));
                }
                StepEffect::Quiet
            },
            Stmt::EndStmt(path) => {
                if self.is_matching {
                    let result = self.history[self.history.len() - 1].deep_clone();
                    let export: Option<(String, String)> = match path {
                        Some(p) => {
                            let data = self.render_transcript();
                            Some((p, data))
                        },
                        None => None,
                    };
                    self.history = Vec::new();
                    self.derivation_history = Vec::new();
                    self.is_matching = false;
                    proof {
                        assert(self@ =~= step(s0, st));
                    }
                    StepEffect::Ended { result, export }
                } else {
                    self.warnings.push(Warning::EndStmtHasNoEffect);
                    proof {
                        assert(self.warnings@.drop_last() =~= old(self).warnings@);
                        assert(self@ =~= step(s0, st));
                    }
                    StepEffect::Quiet
                }
            },
        }
    }

    /// Dispatch a whole statement list in order and collect the transcript
    /// exports it causes: each is a file path paired with the transcript
    /// text to write there.
    #[verifier::loop_isolation(false)]
    pub fn interpret(&mut self, stmts: Vec<Stmt>) -> (exports: Vec<(String, String)>)
        requires
            env_inv(old(self)@),
        ensures
            final(self)@ == run(old(self)@, stmt_views(stmts@)),
            export_views(exports@) == run_exports(old(self)@, stmt_views(stmts@)),
            env_inv(final(self)@),
    {
        let ghost s0 = self@;
        let ghost all = stmt_views(stmts@);
        let mut rest = stmts;
        let mut exports: Vec<(String, String)> = Vec::new();
        proof {
            assert(export_views(exports@) + run_exports(s0, all) =~= run_exports(s0, all));
        }
        while rest.len() > 0
            invariant
                env_inv(self@),
                run(s0, all) == run(self@, stmt_views(rest@)),
                run_exports(s0, all) == export_views(exports@) + run_exports(
                    self@,
                    stmt_views(rest@),
                ),
            decreases rest.len(),
        {
            proof {
                lemma_stmt_views(rest@);
            }
            let ghost rem0 = stmt_views(rest@);
            let ghost pre = self@;
            let st = rest.remove(0);
            proof {
                lemma_stmt_views(rest@);
                assert(st@ == rem0[0]);
                assert(stmt_views(rest@) =~= rem0.drop_first());
            }
            let eff = self.interpret_stmt(st);
            let ghost exports0 = exports@;
            match eff {
                StepEffect::Ended { export: Some(e), .. } => {
                    exports.push(e);
                    proof {
                        assert(exports@.drop_last() =~= exports0);
                    }
                },
                _ => {},
            }
            proof {
                assert(run(pre, rem0) == run(self@, stmt_views(rest@)));
                assert(run_exports(pre, rem0) =~= (match step_export(pre, rem0[0]) {
                    Some(e) => seq![e],
                    None => Seq::<(Seq<char>, Seq<char>)>::empty(),
                }) + run_exports(self@, stmt_views(rest@)));
                assert(export_views(exports@) + run_exports(self@, stmt_views(rest@))
                    =~= export_views(exports0) + run_exports(pre, rem0));
            }
        }
        proof {
            assert(stmt_views(rest@).len() == 0);
            assert(export_views(exports@) + run_exports(self@, stmt_views(rest@))
                =~= export_views(exports@));
        }
        exports
    }

    /// One undo: with more than the anchor in the history, drop the current
    /// term and the rule that produced it; the anchor itself stays.
    pub fn pop_expr(&mut self)
        ensures
            final(self)@ == pop_state(old(self)@),
    {
        proof {
            lemma_term_views(self.history@);
            lemma_deriv_views(self.derivation_history@);
        }
        if self.history.len() > 1 {
            self.history.pop();
            self.derivation_history.pop();
            proof {
                assert(term_views(self.history@) =~= old(self)@.history.drop_last());
                assert(deriv_views(self.derivation_history@) =~= pop_state(
                    old(self)@,
                ).derivation);
                assert(final(self)@ =~= pop_state(old(self)@));
            }
        }
    }
}

} // verus!
