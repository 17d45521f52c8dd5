use vstd::prelude::*;
use crate::uint::UInt;
use crate::vars::Variables;
use crate::verbs::{ComparisonVerb, OperatorVerb};
use crate::expr::{Expr, Control, SExpr, SControl, LineNo, views, lemma_terms_view};

verus! {

broadcast use vstd::std_specs::vec::axiom_vec_index_decreases;

/// The values of variables: a variable without a value counts as 0.
pub type Vars = Map<Seq<char>, nat>;

/// The value of a variable (0 when it has none).
pub open spec fn lookup(v: Vars, k: Seq<char>) -> nat {
    if v.contains_key(k) { v[k] } else { 0 }
}

/// Bookkeeping steps that change no variable.
#[derive(Debug, Clone, Copy, PartialEq, Eq, Structural, Hash)]
pub enum InternalAction {
    WhileComparison,
    LoopIteration,
}

/// What a step changed.
pub enum ChangeLog {
    Ident(String),
    Internal(InternalAction),
}

/// The model of a `ChangeLog`.
pub enum SChange {
    Ident(Seq<char>),
    Internal(InternalAction),
}

impl View for ChangeLog {
    type V = SChange;

    open spec fn view(&self) -> SChange {
        match self {
            ChangeLog::Ident(s) => SChange::Ident(s@),
            ChangeLog::Internal(a) => SChange::Internal(*a),
        }
    }
}

/// The result of a step: the first line of the statement that ran and what changed.
pub struct ExecutionResult(pub usize, pub Vec<ChangeLog>);

impl View for ExecutionResult {
    type V = (usize, Seq<SChange>);

    open spec fn view(&self) -> (usize, Seq<SChange>) {
        (self.0, Seq::new(self.1@.len(), |i: int| self.1@[i]@))
    }
}

/// The model of an optional step result.
pub open spec fn result_view(r: Option<ExecutionResult>) -> Option<(usize, Seq<SChange>)> {
    match r {
        Some(x) => Some(x@),
        None => None,
    }
}

/// One side of a comparison: a variable or a number.
pub enum ComparisonSide {
    Ident(String),
    NaturalNumber(UInt),
}

/// The model of a comparison side.
pub enum SSide {
    Ident(Seq<char>),
    Num(nat),
}

impl View for ComparisonSide {
    type V = SSide;

    open spec fn view(&self) -> SSide {
        match self {
            ComparisonSide::Ident(s) => SSide::Ident(s@),
            ComparisonSide::NaturalNumber(n) => SSide::Num(n@),
        }
    }
}

/// The model of an arithmetic right-hand side `lhs verb rhs`.
pub struct SBinOp {
    pub lhs: Seq<char>,
    pub verb: OperatorVerb,
    pub rhs: nat,
}

/// The model of a comparison.
pub struct SComp {
    pub lhs: SSide,
    pub verb: ComparisonVerb,
    pub rhs: SSide,
}

/// The model of the execution state of a program.
#[allow(inconsistent_fields)]
pub enum SExec {
    Assign { lhs: Seq<char>, rhs: SBinOp, lno: LineNo, exhausted: bool },
    Terms { terms: Seq<SExec>, ptr: nat },
    While { lno: LineNo, comp: SComp, terms: Box<SExec>, check: bool, exhausted: bool },
    Loop { lno: LineNo, ident: Seq<char>, terms: Box<SExec>, init: bool, cur: nat, iters: nat },
}

/// The value of a comparison side.
pub open spec fn side_value(s: SSide, v: Vars) -> nat {
    match s {
        SSide::Ident(k) => lookup(v, k),
        SSide::Num(n) => n,
    }
}

/// The value of `lhs + rhs` or `lhs - rhs` (subtraction stops at 0).
pub open spec fn eval_binop(op: SBinOp, v: Vars) -> nat {
    let x = lookup(v, op.lhs);
    match op.verb {
        OperatorVerb::Plus => x + op.rhs,
        OperatorVerb::Minus => if x >= op.rhs { (x - op.rhs) as nat } else { 0 },
        OperatorVerb::Multiply => 0,
    }
}

/// The truth of a WHILE condition.
pub open spec fn eval_comp(c: SComp, v: Vars) -> bool {
    let l = side_value(c.lhs, v);
    let r = side_value(c.rhs, v);
    match c.verb {
        ComparisonVerb::Equal => l == r,
        ComparisonVerb::NotEqual => l != r,
        ComparisonVerb::GreaterThan => l > r,
        ComparisonVerb::GreaterThanEqual => l >= r,
        ComparisonVerb::LessThan => l < r,
        ComparisonVerb::LessThanEqual => l <= r,
    }
}

/// The size of an execution state.
pub open spec fn height(e: SExec) -> nat
    decreases e, 0nat,
{
    match e {
        SExec::Assign { .. } => 1,
        SExec::Terms { terms, .. } => 1 + height_sum(terms),
        SExec::While { terms, .. } => 1 + height(*terms),
        SExec::Loop { terms, .. } => 1 + height(*terms),
    }
}

pub open spec fn height_sum(ts: Seq<SExec>) -> nat
    decreases ts, 0nat,
{
    if ts.len() == 0 {
        0
    } else {
        height_sum(ts.drop_last()) + height(ts.last())
    }
}

pub proof fn lemma_height_sum(ts: Seq<SExec>, i: int)
    requires
        0 <= i < ts.len(),
    ensures
        height(ts[i]) <= height_sum(ts),
    decreases ts.len(),
{
    if i < ts.len() - 1 {
        lemma_height_sum(ts.drop_last(), i);
        assert(ts.drop_last()[i] == ts[i]);
    }
}

/// The state of a program before its first step.
pub open spec fn spec_renew(e: SExec) -> SExec
    decreases e, 0nat,
{
    match e {
        SExec::Assign { lhs, rhs, lno, .. } => SExec::Assign { lhs, rhs, lno, exhausted: false },
        SExec::Terms { terms, .. } => SExec::Terms { terms: renew_seq(terms), ptr: 0 },
        SExec::While { lno, comp, terms, .. } => SExec::While {
            lno,
            comp,
            terms: Box::new(spec_renew(*terms)),
            check: true,
            exhausted: false,
        },
        SExec::Loop { lno, ident, terms, .. } => SExec::Loop {
            lno,
            ident,
            terms: Box::new(spec_renew(*terms)),
            init: false,
            cur: 0,
            iters: 0,
        },
    }
}

pub open spec fn renew_seq(ts: Seq<SExec>) -> Seq<SExec>
    decreases ts, 0nat,
{
    Seq::new(ts.len(), |i: int| if 0 <= i < ts.len() { spec_renew(ts[i]) } else { ts[0] })
}

pub proof fn lemma_renew_height(e: SExec)
    ensures
        height(spec_renew(e)) == height(e),
    decreases e, 0nat,
{
    match e {
        SExec::Terms { terms, .. } => {
            lemma_renew_height_seq(terms);
        },
        SExec::While { terms, .. } => {
            lemma_renew_height(*terms);
        },
        SExec::Loop { terms, .. } => {
            lemma_renew_height(*terms);
        },
        _ => {},
    }
}

pub proof fn lemma_renew_height_seq(ts: Seq<SExec>)
    ensures
        height_sum(renew_seq(ts)) == height_sum(ts),
    decreases ts, 0nat,
{
    if ts.len() > 0 {
        lemma_renew_height_seq(ts.drop_last());
        lemma_renew_height(ts.last());
        assert(renew_seq(ts).drop_last() =~= renew_seq(ts.drop_last()));
        assert(renew_seq(ts).last() == spec_renew(ts.last()));
    }
}

/// One step of a program: the state after it, the variables after it, and what it
/// reports (`None` when the program has finished).
pub open spec fn spec_step(e: SExec, v: Vars) -> (SExec, Vars, Option<(usize, Seq<SChange>)>)
    decreases height(e), 0nat,
{
    match e {
        SExec::Assign { lhs, rhs, lno, exhausted } => {
            if exhausted {
                (e, v, None)
            } else {
                (
                    SExec::Assign { lhs, rhs, lno, exhausted: true },
                    v.insert(lhs, eval_binop(rhs, v)),
                    Some((lno.0, seq![SChange::Ident(lhs)])),
                )
            }
        },
        SExec::Terms { terms, ptr } => {
            let (ts, p, v2, r) = terms_step(terms, ptr, v);
            (SExec::Terms { terms: ts, ptr: p }, v2, r)
        },
        SExec::While { lno, comp, terms, check, exhausted } => {
            if check {
                (
                    SExec::While { lno, comp, terms, check: false, exhausted: !eval_comp(comp, v) },
                    v,
                    Some((lno.0, seq![SChange::Internal(InternalAction::WhileComparison)])),
                )
            } else if exhausted {
                (e, v, None)
            } else {
                let (t2, v2, r) = spec_step(*terms, v);
                if r is None {
                    (
                        SExec::While {
                            lno,
                            comp,
                            terms: Box::new(spec_renew(*terms)),
                            check: false,
                            exhausted: !eval_comp(comp, v2),
                        },
                        v2,
                        Some((lno.0, seq![SChange::Internal(InternalAction::WhileComparison)])),
                    )
                } else {
                    (SExec::While { lno, comp, terms: Box::new(t2), check, exhausted }, v2, r)
                }
            }
        },
        SExec::Loop { lno, ident, terms, init, cur, iters } => {
            if !init {
                (
                    SExec::Loop { lno, ident, terms, init: true, cur, iters: lookup(v, ident) },
                    v,
                    Some((lno.0, seq![SChange::Internal(InternalAction::LoopIteration)])),
                )
            } else {
                loop_run(lno, ident, *terms, cur, iters, v)
            }
        },
    }
}

/// Steps the statements of a list from `ptr` on, until one reports something.
pub open spec fn terms_step(ts: Seq<SExec>, ptr: nat, v: Vars) -> (Seq<SExec>, nat, Vars, Option<(usize, Seq<SChange>)>)
    decreases height_sum(ts), if ptr < ts.len() { (ts.len() - ptr) as nat } else { 0 },
{
    if ptr >= ts.len() {
        (ts, ptr, v, None)
    } else {
        proof {
            lemma_height_sum(ts, ptr as int);
        }
        let (t2, v2, r) = spec_step(ts[ptr as int], v);
        if r is None {
            let (ts3, p3, v3, r3) = terms_step(ts, ptr + 1, v2);
            (ts3.update(ptr as int, t2), p3, v3, r3)
        } else {
            (ts.update(ptr as int, t2), ptr, v2, r)
        }
    }
}

/// Runs the iterations of a LOOP from iteration `cur` of `iters` on, until its body
/// reports something.
pub open spec fn loop_run(lno: LineNo, ident: Seq<char>, terms: SExec, cur: nat, iters: nat, v: Vars)
    -> (SExec, Vars, Option<(usize, Seq<SChange>)>)
    decreases height(terms), if cur < iters { (iters - cur) as nat } else { 0 },
{
    if cur >= iters {
        (SExec::Loop { lno, ident, terms: Box::new(terms), init: true, cur, iters }, v, None)
    } else {
        let (t2, v2, r) = spec_step(terms, v);
        if r is None {
            proof {
                lemma_renew_height(terms);
            }
            loop_run(lno, ident, spec_renew(terms), cur + 1, iters, v2)
        } else {
            (SExec::Loop { lno, ident, terms: Box::new(t2), init: true, cur, iters }, v2, r)
        }
    }
}

} // verus!

verus! {

/// A finished state: stepping it reports nothing.
pub open spec fn done(e: SExec) -> bool {
    match e {
        SExec::Assign { exhausted, .. } => exhausted,
        SExec::Terms { terms, ptr } => ptr >= terms.len(),
        SExec::While { check, exhausted, .. } => !check && exhausted,
        SExec::Loop { init, cur, iters, .. } => init && cur >= iters,
    }
}

proof fn lemma_height_sum_update(ts: Seq<SExec>, i: int, t: SExec)
    requires
        0 <= i < ts.len(),
        height(t) == height(ts[i]),
    ensures
        height_sum(ts.update(i, t)) == height_sum(ts),
    decreases ts.len(),
{
    if i < ts.len() - 1 {
        lemma_height_sum_update(ts.drop_last(), i, t);
        assert(ts.update(i, t).drop_last() =~= ts.drop_last().update(i, t));
    } else {
        assert(ts.update(i, t).drop_last() =~= ts.drop_last());
    }
}

proof fn lemma_step_props(e: SExec, v: Vars)
    ensures
        height(spec_step(e, v).0) == height(e),
        spec_renew(spec_step(e, v).0) == spec_renew(e),
        spec_step(e, v).2 is None ==> spec_step(e, v).1 == v && done(spec_step(e, v).0),
    decreases height(e), 0nat,
{
    match e {
        SExec::Terms { terms, ptr } => {
            lemma_terms_props(terms, ptr, v);
            let r = terms_step(terms, ptr, v);
            assert(spec_step(e, v).0 == SExec::Terms { terms: r.0, ptr: r.1 });
            assert(spec_renew(spec_step(e, v).0) == SExec::Terms { terms: renew_seq(r.0), ptr: 0 });
        },
        SExec::While { lno, comp, terms, check, exhausted } => {
            if !check && !exhausted {
                lemma_step_props(*terms, v);
                lemma_renew_height(*terms);
                lemma_renew_idempotent(*terms);
            }
        },
        SExec::Loop { lno, ident, terms, init, cur, iters } => {
            if init {
                lemma_loop_props(lno, ident, *terms, cur, iters, v);
            }
        },
        _ => {},
    }
}

proof fn lemma_terms_props(ts: Seq<SExec>, ptr: nat, v: Vars)
    ensures
        terms_step(ts, ptr, v).0.len() == ts.len(),
        height_sum(terms_step(ts, ptr, v).0) == height_sum(ts),
        renew_seq(terms_step(ts, ptr, v).0) == renew_seq(ts),
        terms_step(ts, ptr, v).3 is None ==> terms_step(ts, ptr, v).2 == v && terms_step(ts, ptr, v).1 >= ts.len(),
        forall|j: int| 0 <= j < ptr && j < ts.len() ==> #[trigger] terms_step(ts, ptr, v).0[j] == ts[j],
    decreases height_sum(ts), if ptr < ts.len() { (ts.len() - ptr) as nat } else { 0 },
{
    if ptr < ts.len() {
        lemma_height_sum(ts, ptr as int);
        let (t2, v2, r) = spec_step(ts[ptr as int], v);
        lemma_step_props(ts[ptr as int], v);
        if r is None {
            lemma_terms_props(ts, ptr + 1, v2);
            let ts3 = terms_step(ts, ptr + 1, v2).0;
            assert(ts3[ptr as int] == ts[ptr as int]);
            lemma_height_sum_update(ts3, ptr as int, t2);
            assert(renew_seq(ts3.update(ptr as int, t2)) =~= renew_seq(ts3)) by {
                assert(renew_seq(ts3)[ptr as int] == spec_renew(ts3[ptr as int]));
                assert(renew_seq(ts)[ptr as int] == spec_renew(ts[ptr as int]));
            }
        } else {
            lemma_height_sum_update(ts, ptr as int, t2);
            assert(renew_seq(ts.update(ptr as int, t2)) =~= renew_seq(ts));
        }
    }
}

proof fn lemma_loop_props(lno: LineNo, ident: Seq<char>, terms: SExec, cur: nat, iters: nat, v: Vars)
    ensures
        loop_run(lno, ident, terms, cur, iters, v).0 is Loop,
        height(loop_run(lno, ident, terms, cur, iters, v).0) == 1 + height(terms),
        spec_renew(loop_run(lno, ident, terms, cur, iters, v).0)
            == spec_renew(SExec::Loop { lno, ident, terms: Box::new(terms), init: true, cur, iters }),
        loop_run(lno, ident, terms, cur, iters, v).2 is None ==> loop_run(lno, ident, terms, cur, iters, v).1 == v
            && done(loop_run(lno, ident, terms, cur, iters, v).0),
    decreases height(terms), if cur < iters { (iters - cur) as nat } else { 0 },
{
    if cur < iters {
        let (t2, v2, r) = spec_step(terms, v);
        lemma_step_props(terms, v);
        if r is None {
            lemma_renew_height(terms);
            lemma_loop_props(lno, ident, spec_renew(terms), cur + 1, iters, v2);
            lemma_renew_idempotent(terms);
        }
    }
}

/// Renewing twice is renewing once.
pub proof fn lemma_renew_idempotent(e: SExec)
    ensures
        spec_renew(spec_renew(e)) == spec_renew(e),
    decreases e, 0nat,
{
    match e {
        SExec::Terms { terms, .. } => {
            assert forall|i: int| 0 <= i < terms.len() implies spec_renew(spec_renew(terms[i])) == spec_renew(terms[i]) by {
                lemma_renew_idempotent(terms[i]);
            }
            assert(renew_seq(renew_seq(terms)) =~= renew_seq(terms));
        },
        SExec::While { terms, .. } => {
            lemma_renew_idempotent(*terms);
        },
        SExec::Loop { terms, .. } => {
            lemma_renew_idempotent(*terms);
        },
        _ => {},
    }
}

/// A step never changes the shape of the program: stepping and then renewing gives the
/// program's starting state, as renewing alone does.
pub proof fn law_renew_forgets_step(e: SExec, v: Vars)
    ensures
        spec_renew(spec_step(e, v).0) == spec_renew(e),
        height(spec_step(e, v).0) == height(e),
{
    lemma_step_props(e, v);
}

/// What a step reports of the variables: a step that reports nothing changes none, and a
/// variable that a step does not report as changed keeps its value.
pub open spec fn reports_changes(v: Vars, v2: Vars, r: Option<(usize, Seq<SChange>)>) -> bool {
    &&& r is None ==> v2 == v
    &&& forall|k: Seq<char>| !(r matches Some((_, cs)) && cs.contains(SChange::Ident(k))) ==> #[trigger] lookup(v2, k) == lookup(v, k)
}

/// A step reports every variable it changes: each variable it does not report keeps its
/// value, and a step that reports nothing changes nothing.
pub proof fn law_step_reports_changes(e: SExec, v: Vars)
    ensures
        reports_changes(v, spec_step(e, v).1, spec_step(e, v).2),
    decreases height(e), 0nat,
{
    match e {
        SExec::Assign { lhs, rhs, lno, exhausted } => {
            if !exhausted {
                let cs = seq![SChange::Ident(lhs)];
                assert forall|k: Seq<char>| !cs.contains(SChange::Ident(k)) implies #[trigger] lookup(v.insert(lhs, eval_binop(rhs, v)), k)
                    == lookup(v, k) by {
                    if k == lhs {
                        assert(cs[0] == SChange::Ident(k));
                    }
                }
            }
        },
        SExec::Terms { terms, ptr } => {
            lemma_terms_reports(terms, ptr, v);
        },
        SExec::While { lno, comp, terms, check, exhausted } => {
            if !check && !exhausted {
                law_step_reports_changes(*terms, v);
            }
        },
        SExec::Loop { lno, ident, terms, init, cur, iters } => {
            if init {
                lemma_loop_reports(lno, ident, *terms, cur, iters, v);
            }
        },
    }
}

proof fn lemma_terms_reports(ts: Seq<SExec>, ptr: nat, v: Vars)
    ensures
        reports_changes(v, terms_step(ts, ptr, v).2, terms_step(ts, ptr, v).3),
    decreases height_sum(ts), if ptr < ts.len() { (ts.len() - ptr) as nat } else { 0 },
{
    if ptr < ts.len() {
        lemma_height_sum(ts, ptr as int);
        law_step_reports_changes(ts[ptr as int], v);
        let (t2, v2, r) = spec_step(ts[ptr as int], v);
        if r is None {
            lemma_terms_reports(ts, ptr + 1, v2);
        }
    }
}

proof fn lemma_loop_reports(lno: LineNo, ident: Seq<char>, terms: SExec, cur: nat, iters: nat, v: Vars)
    ensures
        reports_changes(v, loop_run(lno, ident, terms, cur, iters, v).1, loop_run(lno, ident, terms, cur, iters, v).2),
    decreases height(terms), if cur < iters { (iters - cur) as nat } else { 0 },
{
    if cur < iters {
        law_step_reports_changes(terms, v);
        let (t2, v2, r) = spec_step(terms, v);
        if r is None {
            lemma_renew_height(terms);
            lemma_loop_reports(lno, ident, spec_renew(terms), cur + 1, iters, v2);
        }
    }
}

/// A step that reports nothing changes no variable and leaves a finished program; a
/// finished program stays unchanged and reports nothing whatever the variables are.
pub proof fn law_finished_is_final(e: SExec, v: Vars, w: Vars)
    ensures
        spec_step(e, v).2 is None ==> spec_step(e, v).1 == v && done(spec_step(e, v).0),
        done(e) ==> spec_step(e, w) == (e, w, None::<(usize, Seq<SChange>)>),
{
    lemma_step_props(e, v);
    if done(e) {
        match e {
            SExec::Loop { lno, ident, terms, init, cur, iters } => {
                assert(Box::new(*terms) == terms);
                assert(loop_run(lno, ident, *terms, cur, iters, w) == (e, w, None::<(usize, Seq<SChange>)>));
            },
            SExec::Terms { terms, ptr } => {
                assert(terms_step(terms, ptr, w) == (terms, ptr, w, None::<(usize, Seq<SChange>)>));
            },
            _ => {},
        }
    }
}

} // verus!

verus! {

/// Stepping a list from `p` on neither reads nor writes its statements before `p`.
pub proof fn lemma_terms_step_frame(ts: Seq<SExec>, j: int, t: SExec, p: nat, v: Vars)
    requires
        0 <= j < p,
        j < ts.len(),
    ensures
        terms_step(ts.update(j, t), p, v) == (
            terms_step(ts, p, v).0.update(j, t),
            terms_step(ts, p, v).1,
            terms_step(ts, p, v).2,
            terms_step(ts, p, v).3,
        ),
    decreases height_sum(ts), if p < ts.len() { (ts.len() - p) as nat } else { 0 },
{
    let ts2 = ts.update(j, t);
    if p < ts.len() {
        lemma_height_sum(ts, p as int);
        assert(ts2[p as int] == ts[p as int]);
        let (t2, v2, r) = spec_step(ts[p as int], v);
        if r is None {
            lemma_terms_step_frame(ts, j, t, p + 1, v2);
            lemma_terms_props(ts, p + 1, v2);
            let ts3 = terms_step(ts, p + 1, v2).0;
            assert(ts3.update(j, t).update(p as int, t2) =~= ts3.update(p as int, t2).update(j, t));
        } else {
            assert(ts2.update(p as int, t2) =~= ts.update(p as int, t2).update(j, t));
        }
    } else {
        assert(terms_step(ts2, p, v) == (ts2, p, v, None::<(usize, Seq<SChange>)>));
    }
}

} // verus!
