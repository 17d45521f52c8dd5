use vstd::prelude::*;
use crate::uint::UInt;
use crate::vars::Variables;
use crate::verbs::{ComparisonVerb, OperatorVerb};
use crate::expr::{Expr, Control, SExpr, SControl, LineNo, views, lemma_terms_view};
use crate::eval::{SExec, SBinOp, SComp, SSide, SChange, ExecutionResult, ChangeLog, InternalAction, ComparisonSide, Vars, lookup, side_value, eval_binop, eval_comp, spec_step, spec_renew, renew_seq, terms_step, loop_run, height, height_sum, result_view, done};

verus! {

broadcast use vstd::std_specs::vec::axiom_vec_index_decreases;

/// `x := y + n` or `x := y - n`, evaluated.
pub struct BinaryOpExec {
    lhs: String,
    verb: OperatorVerb,
    rhs: UInt,
}

impl View for BinaryOpExec {
    type V = SBinOp;

    closed spec fn view(&self) -> SBinOp {
        SBinOp { lhs: self.lhs@, verb: self.verb, rhs: self.rhs@ }
    }
}

/// The model of the side of a comparison written as an expression.
pub open spec fn side_of(e: SExpr) -> SSide {
    match e {
        SExpr::Ident(s) => SSide::Ident(s),
        SExpr::Num(n) => SSide::Num(n),
        _ => SSide::Num(0),
    }
}

/// A program that can be turned into an execution state: assignments of the form
/// `x := y + n` or `x := y - n` or `x := y * n`, WHILE conditions comparing variables
/// and numbers, LOOPs over a variable, and lists of these.
pub open spec fn constructible(e: SExpr) -> bool
    decreases e,
{
    match e {
        SExpr::Assign { lhs, rhs, .. } => *lhs is Ident && (match *rhs {
            SExpr::BinaryOp { lhs: l, rhs: r, .. } => *l is Ident && *r is Num,
            _ => false,
        }),
        SExpr::Control(SControl::Terms(ts)) => forall|i: int| 0 <= i < ts.len() ==> constructible(#[trigger] ts[i]),
        SExpr::Control(SControl::While { comp, terms, .. }) => (match *comp {
            SExpr::Comparison { lhs: l, rhs: r, .. } => (*l is Ident || *l is Num) && (*r is Ident || *r is Num),
            _ => false,
        }) && constructible(*terms),
        SExpr::Control(SControl::Loop { ident, terms, .. }) => *ident is Ident && constructible(*terms),
        _ => false,
    }
}

/// The execution state of a program before its first step.
pub open spec fn spec_new(e: SExpr) -> SExec
    decreases e,
{
    match e {
        SExpr::Assign { lno, lhs, rhs } => match (*lhs, *rhs) {
            (SExpr::Ident(x), SExpr::BinaryOp { lhs: l, verb, rhs: r }) => match (*l, *r) {
                (SExpr::Ident(y), SExpr::Num(n)) => SExec::Assign {
                    lhs: x,
                    rhs: SBinOp { lhs: y, verb, rhs: n },
                    lno,
                    exhausted: false,
                },
                _ => SExec::Terms { terms: seq![], ptr: 0 },
            },
            _ => SExec::Terms { terms: seq![], ptr: 0 },
        },
        SExpr::Control(SControl::Terms(ts)) => SExec::Terms {
            terms: Seq::new(ts.len(), |i: int| if 0 <= i < ts.len() { spec_new(ts[i]) } else { SExec::Terms { terms: seq![], ptr: 0 } }),
            ptr: 0,
        },
        SExpr::Control(SControl::While { lno, comp, terms }) => match *comp {
            SExpr::Comparison { lhs: l, verb, rhs: r } => SExec::While {
                lno,
                comp: SComp { lhs: side_of(*l), verb, rhs: side_of(*r) },
                terms: Box::new(spec_new(*terms)),
                check: true,
                exhausted: false,
            },
            _ => SExec::Terms { terms: seq![], ptr: 0 },
        },
        SExpr::Control(SControl::Loop { lno, ident, terms }) => match *ident {
            SExpr::Ident(x) => SExec::Loop {
                lno,
                ident: x,
                terms: Box::new(spec_new(*terms)),
                init: false,
                cur: 0,
                iters: 0,
            },
            _ => SExec::Terms { terms: seq![], ptr: 0 },
        },
        _ => SExec::Terms { terms: seq![], ptr: 0 },
    }
}

/// No assignment of the (renewed) state multiplies.
pub open spec fn no_mul(e: SExec) -> bool
    decreases e,
{
    match e {
        SExec::Assign { rhs, .. } => rhs.verb != OperatorVerb::Multiply,
        SExec::Terms { terms, .. } => forall|i: int| 0 <= i < terms.len() ==> no_mul(#[trigger] terms[i]),
        SExec::While { terms, .. } => no_mul(*terms),
        SExec::Loop { terms, .. } => no_mul(*terms),
    }
}

/// A state that can be stepped: none of its assignments multiplies.
pub open spec fn steppable(e: SExec) -> bool {
    no_mul(spec_renew(e))
}

impl BinaryOpExec {
    /// The value of `lhs verb rhs` over the variables (a missing variable is 0;
    /// subtraction stops at 0).
    pub fn exec(&self, locals: &Variables) -> (r: UInt)
        requires
            self@.verb != OperatorVerb::Multiply,
        ensures
            r@ == eval_binop(self@, locals@),
    {
        let lhs = match locals.get(&self.lhs) {
            Some(v) => v.clone(),
            None => UInt::zero(),
        };
        match self.verb {
            OperatorVerb::Plus => lhs.add(&self.rhs),
            _ => match lhs.checked_sub(&self.rhs) {
                Some(d) => d,
                None => UInt::zero(),
            },
        }
    }

    /// The same operation.
    pub fn renew(&self) -> (r: BinaryOpExec)
        ensures
            r@ == self@,
    {
        BinaryOpExec { lhs: self.lhs.clone(), verb: self.verb, rhs: self.rhs.clone() }
    }
}

impl ComparisonSide {
    fn value(&self, locals: &Variables) -> (r: UInt)
        ensures
            r@ == side_value(self@, locals@),
    {
        match self {
            ComparisonSide::Ident(i) => match locals.get(i) {
                Some(v) => v.clone(),
                None => UInt::zero(),
            },
            ComparisonSide::NaturalNumber(n) => n.clone(),
        }
    }

    fn copy(&self) -> (r: ComparisonSide)
        ensures
            r@ == self@,
    {
        match self {
            ComparisonSide::Ident(i) => ComparisonSide::Ident(i.clone()),
            ComparisonSide::NaturalNumber(n) => ComparisonSide::NaturalNumber(n.clone()),
        }
    }
}

/// A WHILE condition, evaluated.
pub struct ComparisonExec {
    lhs: ComparisonSide,
    verb: ComparisonVerb,
    rhs: ComparisonSide,
}

impl View for ComparisonExec {
    type V = SComp;

    closed spec fn view(&self) -> SComp {
        SComp { lhs: self.lhs@, verb: self.verb, rhs: self.rhs@ }
    }
}

impl ComparisonExec {
    /// The truth of the condition over the variables (see `eval_comp`).
    pub fn exec(&self, locals: &Variables) -> (r: bool)
        ensures
            r == eval_comp(self@, locals@),
    {
        let lhs = self.lhs.value(locals);
        let rhs = self.rhs.value(locals);
        match self.verb {
            ComparisonVerb::Equal => lhs.is_equal(&rhs),
            ComparisonVerb::NotEqual => !lhs.is_equal(&rhs),
            ComparisonVerb::GreaterThan => rhs.is_less(&lhs),
            ComparisonVerb::GreaterThanEqual => !lhs.is_less(&rhs),
            ComparisonVerb::LessThan => lhs.is_less(&rhs),
            ComparisonVerb::LessThanEqual => !rhs.is_less(&lhs),
        }
    }

    /// The same condition.
    pub fn renew(&self) -> (r: ComparisonExec)
        ensures
            r@ == self@,
    {
        ComparisonExec { lhs: self.lhs.copy(), verb: self.verb, rhs: self.rhs.copy() }
    }
}

} // verus!

verus! {

/// An assignment `lhs := rhs`, run once.
pub struct AssignExec {
    lhs: String,
    rhs: BinaryOpExec,
    lno: LineNo,
    exhausted: bool,
}

/// A statement list, run statement after statement.
pub struct TermsExec {
    terms: Vec<Exec>,
    ptr: usize,
}

/// A WHILE loop: the condition is checked before each run of the body.
pub struct WhileExec {
    lno: LineNo,
    comp: ComparisonExec,
    terms: Box<Exec>,
    check: bool,
    exhausted: bool,
}

/// A LOOP: the body runs as many times as the variable's value when the loop starts.
pub struct LoopExec {
    lno: LineNo,
    ident: String,
    terms: Box<Exec>,
    init: bool,
    cur: UInt,
    iters: UInt,
}

/// The execution state of a program.
pub enum Exec {
    Assign(AssignExec),
    Terms(TermsExec),
    While(WhileExec),
    Loop(LoopExec),
}

/// The model of an execution state.
pub closed spec fn view_exec(e: Exec) -> SExec
    decreases e,
{
    match e {
        Exec::Assign(a) => SExec::Assign { lhs: a.lhs@, rhs: a.rhs@, lno: a.lno, exhausted: a.exhausted },
        Exec::Terms(t) => SExec::Terms {
            terms: Seq::new(
                t.terms@.len(),
                |i: int| if 0 <= i < t.terms@.len() { view_exec(t.terms@[i]) } else { SExec::Terms { terms: seq![], ptr: 0 } },
            ),
            ptr: t.ptr as nat,
        },
        Exec::While(w) => SExec::While {
            lno: w.lno,
            comp: w.comp@,
            terms: Box::new(view_exec(*w.terms)),
            check: w.check,
            exhausted: w.exhausted,
        },
        Exec::Loop(l) => SExec::Loop {
            lno: l.lno,
            ident: l.ident@,
            terms: Box::new(view_exec(*l.terms)),
            init: l.init,
            cur: l.cur@,
            iters: l.iters@,
        },
    }
}

impl View for Exec {
    type V = SExec;

    open spec fn view(&self) -> SExec {
        view_exec(*self)
    }
}

impl View for AssignExec {
    type V = SExec;

    closed spec fn view(&self) -> SExec {
        SExec::Assign { lhs: self.lhs@, rhs: self.rhs@, lno: self.lno, exhausted: self.exhausted }
    }
}

impl View for TermsExec {
    type V = SExec;

    closed spec fn view(&self) -> SExec {
        view_exec(Exec::Terms(*self))
    }
}

impl View for WhileExec {
    type V = SExec;

    closed spec fn view(&self) -> SExec {
        view_exec(Exec::While(*self))
    }
}

impl View for LoopExec {
    type V = SExec;

    closed spec fn view(&self) -> SExec {
        view_exec(Exec::Loop(*self))
    }
}

pub open spec fn exec_views(s: Seq<Exec>) -> Seq<SExec> {
    Seq::new(s.len(), |i: int| s[i]@)
}

proof fn lemma_terms_exec_view(t: TermsExec)
    ensures
        t@ == (SExec::Terms { terms: exec_views(t.terms@), ptr: t.ptr as nat }),
{
    assert(view_exec(Exec::Terms(t))->Terms_terms =~= exec_views(t.terms@));
}

fn one_change(c: ChangeLog) -> (r: Vec<ChangeLog>)
    ensures
        Seq::new(r@.len(), |i: int| r@[i]@) == seq![c@],
{
    let mut r = Vec::new();
    r.push(c);
    assert(Seq::new(r@.len(), |i: int| r@[i]@) =~= seq![c@]);
    r
}

impl AssignExec {
    /// Runs the assignment once; later steps report nothing.
    pub fn step(&mut self, locals: &mut Variables) -> (r: Option<ExecutionResult>)
        requires
            steppable(old(self)@),
        ensures
            (final(self)@, final(locals)@, result_view(r)) == spec_step(old(self)@, old(locals)@),
    {
        if self.exhausted {
            return None;
        }
        let value = self.rhs.exec(locals);
        locals.insert(self.lhs.clone(), value);
        self.exhausted = true;
        Some(ExecutionResult(self.lno.0, one_change(ChangeLog::Ident(self.lhs.clone()))))
    }

    /// The assignment, not yet run.
    pub fn renew(&self) -> (r: AssignExec)
        ensures
            r@ == spec_renew(self@),
    {
        AssignExec { lhs: self.lhs.clone(), rhs: self.rhs.renew(), lno: self.lno, exhausted: false }
    }
}

} // verus!

verus! {

impl Exec {
    /// Runs the program until something happens, and reports it (see `spec_step`);
    /// `None` once the program has finished.
    pub fn step(&mut self, locals: &mut Variables) -> (r: Option<ExecutionResult>)
        requires
            steppable(old(self)@),
        ensures
            (final(self)@, final(locals)@, result_view(r)) == spec_step(old(self)@, old(locals)@),
        decreases height(self@), 1nat,
    {
        match self {
            Exec::Assign(exec) => exec.step(locals),
            Exec::Terms(exec) => exec.step(locals),
            Exec::While(exec) => exec.step(locals),
            Exec::Loop(exec) => exec.step(locals),
        }
    }

    /// The program as before its first step.
    pub fn renew(&self) -> (r: Exec)
        ensures
            r@ == spec_renew(self@),
        decreases self,
    {
        match self {
            Exec::Assign(exec) => Exec::Assign(exec.renew()),
            Exec::Terms(exec) => Exec::Terms(exec.renew()),
            Exec::While(exec) => Exec::While(exec.renew()),
            Exec::Loop(exec) => Exec::Loop(exec.renew()),
        }
    }
}

impl TermsExec {
    /// Steps the statements in order until one reports something.
    pub fn step(&mut self, locals: &mut Variables) -> (r: Option<ExecutionResult>)
        requires
            steppable(old(self)@),
        ensures
            (final(self)@, final(locals)@, result_view(r)) == spec_step(old(self)@, old(locals)@),
        decreases height(self@), 0nat,
    {
        proof { lemma_terms_exec_view(*self); }
        let ghost ts0 = exec_views(self.terms@);
        let ghost p0 = self.ptr as nat;
        let ghost v0 = locals@;
        let ghost target = terms_step(ts0, p0, v0);
        assert(spec_step(old(self)@, v0) == (SExec::Terms { terms: target.0, ptr: target.1 }, target.2, target.3));
        loop
            invariant
                spec_step(old(self)@, v0) == (SExec::Terms { terms: target.0, ptr: target.1 }, target.2, target.3),
                v0 == old(locals)@,
                target == terms_step(exec_views(self.terms@), self.ptr as nat, locals@),
                target == terms_step(ts0, p0, v0),
                self.terms@.len() == ts0.len(),
                forall|j: int| self.ptr <= j < ts0.len() ==> #[trigger] self.terms@[j]@ == ts0[j],
                height(SExec::Terms { terms: ts0, ptr: p0 }) == height(old(self)@),
                no_mul(spec_renew(SExec::Terms { terms: ts0, ptr: p0 })),
            decreases self.terms@.len() - self.ptr,
        {
            if self.ptr >= self.terms.len() {
                proof { lemma_terms_exec_view(*self); }
                return None;
            }
            let i = self.ptr;
            let ghost cur = exec_views(self.terms@);
            let ghost vb = locals@;
            proof {
                crate::eval::lemma_height_sum(ts0, i as int);
                assert(cur[i as int] == ts0[i as int]);
                assert(renew_seq(ts0)[i as int] == spec_renew(ts0[i as int]));
                assert(spec_renew(SExec::Terms { terms: ts0, ptr: p0 }) == SExec::Terms { terms: renew_seq(ts0), ptr: 0 });
                lemma_no_mul_terms(renew_seq(ts0), i as int);
                assert(self.terms@[i as int]@ == ts0[i as int]);
            }
            let r = self.terms[i].step(locals);
            proof {
                lemma_finished_none(cur[i as int], vb);
            }
            match r {
                None => {
                    self.ptr = i + 1;
                    proof {
                        let t2 = spec_step(cur[i as int], vb).0;
                        assert(exec_views(self.terms@) =~= cur.update(i as int, t2));
                        crate::eval::lemma_terms_step_frame(cur, i as int, t2, (i + 1) as nat, vb);
                    }
                },
                Some(x) => {
                    proof {
                        lemma_terms_exec_view(*self);
                        let t2 = spec_step(cur[i as int], vb).0;
                        assert(exec_views(self.terms@) =~= cur.update(i as int, t2));
                    }
                    return Some(x);
                },
            }
        }
    }

    /// The list as before its first step.
    pub fn renew(&self) -> (r: TermsExec)
        ensures
            r@ == spec_renew(self@),
        decreases self,
    {
        proof { lemma_terms_exec_view(*self); }
        let mut terms: Vec<Exec> = Vec::new();
        let mut i: usize = 0;
        while i < self.terms.len()
            invariant
                i <= self.terms@.len(),
                terms@.len() == i,
                forall|j: int| 0 <= j < i ==> #[trigger] terms@[j]@ == spec_renew(self.terms@[j]@),
            decreases self.terms.len() - i,
        {
            terms.push(self.terms[i].renew());
            i = i + 1;
        }
        let r = TermsExec { terms, ptr: 0 };
        proof {
            lemma_terms_exec_view(r);
            assert(exec_views(r.terms@) =~= renew_seq(exec_views(self.terms@)));
        }
        r
    }
}

proof fn lemma_no_mul_terms(ts: Seq<SExec>, i: int)
    requires
        no_mul(SExec::Terms { terms: ts, ptr: 0 }),
        0 <= i < ts.len(),
    ensures
        no_mul(ts[i]),
{
    let e = SExec::Terms { terms: ts, ptr: 0 };
    assert(e->Terms_terms == ts);
    assert(forall|j: int| 0 <= j < e->Terms_terms.len() ==> no_mul(#[trigger] e->Terms_terms[j]));
}

proof fn lemma_finished_none(e: SExec, v: Vars)
    ensures
        spec_step(e, v).2 is None ==> spec_step(e, v).1 == v,
{
    crate::eval::law_finished_is_final(e, v, v);
}

impl WhileExec {
    /// Checks the condition, or steps the body; when the body has finished it is
    /// renewed and the condition is checked again.
    pub fn step(&mut self, locals: &mut Variables) -> (r: Option<ExecutionResult>)
        requires
            steppable(old(self)@),
        ensures
            (final(self)@, final(locals)@, result_view(r)) == spec_step(old(self)@, old(locals)@),
        decreases height(self@), 0nat,
    {
        if self.check {
            self.exhausted = !self.comp.exec(locals);
            self.check = false;
            return Some(ExecutionResult(self.lno.0, one_change(ChangeLog::Internal(InternalAction::WhileComparison))));
        }
        if self.exhausted {
            return None;
        }
        let ghost t0 = (*self.terms)@;
        let ghost v0 = locals@;
        let r = self.terms.step(locals);
        proof {
            lemma_finished_none(t0, v0);
            crate::eval::law_renew_forgets_step(t0, v0);
        }
        match r {
            None => {
                self.terms = Box::new(self.terms.renew());
                self.exhausted = !self.comp.exec(locals);
                self.check = false;
                Some(ExecutionResult(self.lno.0, one_change(ChangeLog::Internal(InternalAction::WhileComparison))))
            },
            Some(x) => Some(x),
        }
    }

    /// The loop as before its first step.
    pub fn renew(&self) -> (r: WhileExec)
        ensures
            r@ == spec_renew(self@),
        decreases self,
    {
        WhileExec { lno: self.lno, comp: self.comp.renew(), terms: Box::new(self.terms.renew()), check: true, exhausted: false }
    }
}

impl LoopExec {
    /// On the first step, reads the number of iterations from the variable; then
    /// steps the body, renewing it after each complete run, for that many runs.
    pub fn step(&mut self, locals: &mut Variables) -> (r: Option<ExecutionResult>)
        requires
            steppable(old(self)@),
        ensures
            (final(self)@, final(locals)@, result_view(r)) == spec_step(old(self)@, old(locals)@),
        decreases height(self@), 0nat,
    {
        if !self.init {
            self.iters = match locals.get(&self.ident) {
                Some(v) => v.clone(),
                None => UInt::zero(),
            };
            self.init = true;
            return Some(ExecutionResult(self.lno.0, one_change(ChangeLog::Internal(InternalAction::LoopIteration))));
        }
        let ghost target = spec_step(old(self)@, old(locals)@);
        let ghost h0 = height((*self.terms)@);
        loop
            invariant
                target == spec_step(old(self)@, old(locals)@),
                self.init,
                self.lno == old(self).lno,
                self.ident@ == old(self).ident@,
                height((*self.terms)@) == h0,
                1 + h0 == height(old(self)@),
                no_mul(spec_renew((*self.terms)@)),
                target == loop_run(self.lno, self.ident@, (*self.terms)@, self.cur@, self.iters@, locals@),
            decreases self.iters@ - self.cur@,
        {
            if !self.cur.is_less(&self.iters) {
                assert(self@ == SExec::Loop { lno: self.lno, ident: self.ident@, terms: Box::new((*self.terms)@), init: true, cur: self.cur@, iters: self.iters@ });
                return None;
            }
            let ghost t0 = (*self.terms)@;
            let ghost v0 = locals@;
            let r = self.terms.step(locals);
            proof {
                lemma_finished_none(t0, v0);
                crate::eval::law_renew_forgets_step(t0, v0);
                crate::eval::lemma_renew_height(t0);
                crate::eval::lemma_renew_idempotent(t0);
            }
            match r {
                None => {
                    self.terms = Box::new(self.terms.renew());
                    self.cur = self.cur.add(&UInt::one());
                },
                Some(x) => {
                    assert(self@ == SExec::Loop { lno: self.lno, ident: self.ident@, terms: Box::new((*self.terms)@), init: true, cur: self.cur@, iters: self.iters@ });
                    return Some(x);
                },
            }
        }
    }

    /// The loop as before its first step.
    pub fn renew(&self) -> (r: LoopExec)
        ensures
            r@ == spec_renew(self@),
        decreases self,
    {
        LoopExec {
            lno: self.lno,
            ident: self.ident.clone(),
            terms: Box::new(self.terms.renew()),
            init: false,
            cur: UInt::zero(),
            iters: UInt::zero(),
        }
    }
}

} // verus!

verus! {

impl ComparisonSide {
    fn from_expr(e: &Expr) -> (r: ComparisonSide)
        requires
            e@ is Ident || e@ is Num,
        ensures
            r@ == side_of(e@),
    {
        match e {
            Expr::Ident(m) => ComparisonSide::Ident(m.clone()),
            Expr::NaturalNumber(n) => ComparisonSide::NaturalNumber(n.clone()),
            _ => ComparisonSide::NaturalNumber(UInt::zero()),
        }
    }
}

fn terms_from_exprs(ts: &Vec<Expr>) -> (r: TermsExec)
    requires
        forall|j: int| 0 <= j < ts@.len() ==> constructible(#[trigger] views(ts@)[j]),
    ensures
        r.ptr == 0,
        r.terms@.len() == ts@.len(),
        forall|j: int| 0 <= j < ts@.len() ==> #[trigger] r.terms@[j]@ == spec_new(ts@[j]@),
    decreases ts,
{
    let mut terms: Vec<Exec> = Vec::new();
    let mut i: usize = 0;
    while i < ts.len()
        invariant
            i <= ts@.len(),
            terms@.len() == i,
            forall|j: int| 0 <= j < ts@.len() ==> constructible(#[trigger] views(ts@)[j]),
            forall|j: int| 0 <= j < i ==> #[trigger] terms@[j]@ == spec_new(ts@[j]@),
        decreases ts.len() - i,
    {
        assert(views(ts@)[i as int] == ts@[i as int]@);
        terms.push(Exec::from_expr(&ts[i]));
        i = i + 1;
    }
    TermsExec { terms, ptr: 0 }
}

impl Exec {
    /// The execution state of a program before its first step. (Only statements can be
    /// run: an identifier, a number, a comparison or an operation alone cannot.)
    pub fn new(node: Expr) -> (r: Exec)
        requires
            constructible(node@),
        ensures
            r@ == spec_new(node@),
    {
        Exec::from_expr(&node)
    }

    fn from_expr(node: &Expr) -> (r: Exec)
        requires
            constructible(node@),
        ensures
            r@ == spec_new(node@),
        decreases node,
    {
        match node {
            Expr::Assign { lno, lhs, rhs } => {
                let x = match &**lhs {
                    Expr::Ident(m) => m.clone(),
                    _ => String::new(),
                };
                assert(lhs@ == SExpr::Ident(x@));
                let op = match &**rhs {
                    Expr::BinaryOp { lhs: l, verb, rhs: n } => {
                        let y = match &**l {
                            Expr::Ident(m) => m.clone(),
                            _ => String::new(),
                        };
                        let v = match &**n {
                            Expr::NaturalNumber(v) => v.clone(),
                            _ => UInt::zero(),
                        };
                        assert(rhs@ == SExpr::BinaryOp { lhs: Box::new(l@), verb: *verb, rhs: Box::new(n@) });
                        assert(l@ == SExpr::Ident(y@));
                        assert(n@ == SExpr::Num(v@));
                        BinaryOpExec { lhs: y, verb: *verb, rhs: v }
                    },
                    _ => BinaryOpExec { lhs: String::new(), verb: OperatorVerb::Plus, rhs: UInt::zero() },
                };
                let r = Exec::Assign(AssignExec { lhs: x, rhs: op, lno: *lno, exhausted: false });
                assert(node@->Assign_lhs == Box::new(lhs@));
                assert(node@->Assign_rhs == Box::new(rhs@));
                assert(r@ == spec_new(node@));
                r
            },
            Expr::Control(Control::Terms(ts)) => {
                proof { lemma_terms_view(*ts); }
                let t = terms_from_exprs(ts);
                proof {
                    lemma_terms_exec_view(t);
                    let a = exec_views(t.terms@);
                    let b = spec_new(node@)->Terms_terms;
                    assert(a =~= b) by {
                        assert forall|j: int| 0 <= j < a.len() implies a[j] == b[j] by {
                            assert(views(ts@)[j] == ts@[j]@);
                        }
                    }
                }
                assert(Exec::Terms(t)@ == spec_new(node@));
                Exec::Terms(t)
            },
            Expr::Control(Control::While { lno, comp, terms }) => {
                let c = match &**comp {
                    Expr::Comparison { lhs: l, verb, rhs: r } => {
                        assert(node@->Control_0->While_comp == Box::new(comp@));
                        assert(comp@->Comparison_lhs == Box::new(l@));
                        assert(comp@->Comparison_rhs == Box::new(r@));
                        ComparisonExec {
                        lhs: ComparisonSide::from_expr(l),
                        verb: *verb,
                        rhs: ComparisonSide::from_expr(r),
                    }},
                    _ => ComparisonExec {
                        lhs: ComparisonSide::NaturalNumber(UInt::zero()),
                        verb: ComparisonVerb::Equal,
                        rhs: ComparisonSide::NaturalNumber(UInt::zero()),
                    },
                };
                let b = Exec::from_expr(terms);
                assert(node@->Control_0->While_terms == Box::new(terms@));
                let r = Exec::While(WhileExec { lno: *lno, comp: c, terms: Box::new(b), check: true, exhausted: false });
                assert(r@ == spec_new(node@));
                r
            },
            Expr::Control(Control::Loop { lno, ident, terms }) => {
                let x = match &**ident {
                    Expr::Ident(m) => m.clone(),
                    _ => String::new(),
                };
                assert(node@->Control_0->Loop_ident == Box::new(ident@));
                assert(node@->Control_0->Loop_terms == Box::new(terms@));
                assert(ident@ == SExpr::Ident(x@));
                let b = Exec::from_expr(terms);
                let r = Exec::Loop(LoopExec { lno: *lno, ident: x, terms: Box::new(b), init: false, cur: UInt::zero(), iters: UInt::zero() });
                assert(r@ == spec_new(node@));
                r
            },
            _ => Exec::Terms(TermsExec { terms: Vec::new(), ptr: 0 }),
        }
    }
}

} // verus!

verus! {

proof fn lemma_new_runnable(e: SExpr)
    requires
        crate::expr::runnable(e),
    ensures
        constructible(e),
        spec_renew(spec_new(e)) == spec_new(e),
        no_mul(spec_new(e)),
    decreases e,
{
    match e {
        SExpr::Control(SControl::Terms(ts)) => {
            assert forall|i: int| 0 <= i < ts.len() implies
                constructible(#[trigger] ts[i]) && spec_renew(spec_new(ts[i])) == spec_new(ts[i]) && no_mul(spec_new(ts[i])) by {
                assert(crate::expr::runnable_seq(ts));
                assert(crate::expr::runnable(ts[i]));
                lemma_new_runnable(ts[i]);
            }
            let n = spec_new(e);
            assert(renew_seq(n->Terms_terms) =~= n->Terms_terms);
            assert forall|i: int| 0 <= i < n->Terms_terms.len() implies no_mul(#[trigger] n->Terms_terms[i]) by {
                assert(n->Terms_terms[i] == spec_new(ts[i]));
            }
        },
        SExpr::Control(SControl::While { terms, .. }) => {
            lemma_new_runnable(*terms);
        },
        SExpr::Control(SControl::Loop { terms, .. }) => {
            lemma_new_runnable(*terms);
        },
        _ => {},
    }
}

/// The starting state of a runnable program is already renewed.
pub proof fn lemma_new_is_renewed(e: SExpr)
    requires
        crate::expr::runnable(e),
    ensures
        spec_renew(spec_new(e)) == spec_new(e),
{
    lemma_new_runnable(e);
}

/// A runnable program can be turned into an execution state, and that state can be
/// stepped.
pub proof fn law_runnable_steppable(e: SExpr)
    requires
        crate::expr::runnable(e),
    ensures
        constructible(e),
        steppable(spec_new(e)),
{
    lemma_new_runnable(e);
}

} // verus!
