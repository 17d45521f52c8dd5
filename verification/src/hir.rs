use vstd::prelude::*;
use crate::expr::{Expr, Control, SExpr, LineNo, clone_expr, clone_exprs, views};
use crate::verbs::OperatorVerb;
use crate::lowering::{func_free, lower_ok, lemma_terms_ok, lemma_same_ok};
use crate::flags::CompileFlags;

verus! {

broadcast use vstd::std_specs::vec::axiom_vec_index_decreases;

/// The right-hand side `lhs verb rhs` of a macro assignment.
#[derive(Debug)]
pub struct MacroAssign {
    pub lhs: Box<Expr>,
    pub verb: OperatorVerb,
    pub rhs: Box<Expr>,
}

/// Statements that expand into core LOOP/WHILE code.
#[allow(inconsistent_fields)]
#[derive(Debug)]
pub enum Macro {
    /// `x := y`
    AssignToIdent { lno: LineNo, lhs: Box<Expr>, rhs: Box<Expr> },
    /// `x := 0`
    AssignToZero { lno: LineNo, lhs: Box<Expr> },
    /// `x := n`
    AssignToValue { lno: LineNo, lhs: Box<Expr>, rhs: Box<Expr> },
    /// `x := y + z`, `x := y - z`, `x := y * z`
    AssignToIdentBinOpIdent { lno: LineNo, lhs: Box<Expr>, rhs: MacroAssign },
    /// `x := y * n`
    AssignToIdentExtBinOpValue { lno: LineNo, lhs: Box<Expr>, rhs: MacroAssign },
    /// `IF a verb b THEN ... ELSE ... END`
    Conditional { lno: LineNo, comp: Box<Expr>, if_terms: Box<Hir>, else_terms: Box<Option<Hir>> },
}

/// The right-hand side `func(arg, ...)` of a function call.
#[derive(Debug)]
pub struct FuncCall {
    pub ident: Box<Expr>,
    pub args: Vec<Expr>,
}

/// Function statements: `lhs := func(arg, ...)`.
#[derive(Debug)]
pub enum Func {
    Call { lno: LineNo, lhs: Box<Expr>, rhs: FuncCall },
}

/// The high-level program: core statements, macros, function calls and control
/// structures over these.
#[derive(Debug)]
pub enum Hir {
    Expr(Expr),
    Macro(Macro),
    Function(Func),
    NoOp,
    Control(Control<Hir>),
}

/// A function declaration `FN ident(params) -> ret DECL terms END`.
#[derive(Debug)]
pub struct FuncDecl {
    pub lno: LineNo,
    pub ident: Box<Expr>,
    pub params: Vec<Expr>,
    pub ret: Box<Expr>,
    pub terms: Box<Hir>,
}

/// The `*` of a wildcard import.
#[derive(Debug, Clone, Copy, PartialEq, Eq, Structural, Hash)]
pub struct ImpWildcard {}

/// One imported function, `ident` or `ident AS alias`.
#[derive(Debug)]
pub struct ImpFunc {
    pub ident: Box<Expr>,
    pub alias: Option<Box<Expr>>,
}

/// What an import takes from a module: some functions, or all of them.
#[derive(Debug)]
pub enum ImpFuncs {
    Funcs(Vec<ImpFunc>),
    Wildcard(ImpWildcard),
}

/// `FROM path IMPORT funcs`.
#[derive(Debug)]
pub struct Imp {
    pub lno: LineNo,
    pub path: Vec<Expr>,
    pub funcs: ImpFuncs,
}

/// A source file: its imports, its function declarations and its code.
#[derive(Debug)]
pub struct Module {
    pub imp: Vec<Imp>,
    pub decl: Vec<FuncDecl>,
    pub code: Hir,
}

// ---------------------------------------------------------------------------
// Shapes

pub open spec fn is_ident(e: Expr) -> bool {
    e@ is Ident
}

pub open spec fn is_num(e: Expr) -> bool {
    e@ is Num
}

pub open spec fn is_atom(e: Expr) -> bool {
    is_ident(e) || is_num(e)
}

/// `x := y + n` or `x := y - n`.
pub open spec fn is_plain_assign(e: SExpr) -> bool {
    match e {
        SExpr::Assign { lhs, rhs, .. } => *lhs is Ident && (match *rhs {
            SExpr::BinaryOp { lhs: l, verb, rhs: r } => *l is Ident && *r is Num && verb != OperatorVerb::Multiply,
            _ => false,
        }),
        _ => false,
    }
}

/// A comparison of two variables or numbers.
pub open spec fn is_atom_comparison(e: SExpr) -> bool {
    match e {
        SExpr::Comparison { lhs, rhs, .. } => (*lhs is Ident || *lhs is Num) && (*rhs is Ident || *rhs is Num),
        _ => false,
    }
}

/// A macro whose parts have the shapes its syntax gives them.
pub open spec fn macro_wf(m: Macro) -> bool
    decreases m,
{
    match m {
        Macro::AssignToIdent { lhs, rhs, .. } => is_ident(*lhs) && is_ident(*rhs),
        Macro::AssignToZero { lhs, .. } => is_ident(*lhs),
        Macro::AssignToValue { lhs, rhs, .. } => is_ident(*lhs) && is_num(*rhs),
        Macro::AssignToIdentBinOpIdent { lhs, rhs, .. } => is_ident(*lhs) && is_ident(*rhs.lhs) && is_ident(*rhs.rhs),
        Macro::AssignToIdentExtBinOpValue { lhs, rhs, .. } => is_ident(*lhs) && is_ident(*rhs.lhs)
            && is_num(*rhs.rhs) && rhs.verb == OperatorVerb::Multiply,
        Macro::Conditional { comp, if_terms, else_terms, .. } => is_atom_comparison(comp@) && stmt_wf(*if_terms)
            && (match *else_terms {
                Some(e) => stmt_wf(e),
                None => true,
            }),
    }
}

/// A function call whose callee and target are identifiers and whose arguments are
/// variables or numbers.
pub open spec fn func_wf(f: Func) -> bool {
    match f {
        Func::Call { lhs, rhs, .. } => is_ident(*lhs) && is_ident(*rhs.ident)
            && forall|i: int| 0 <= i < rhs.args@.len() ==> is_atom(#[trigger] rhs.args@[i]),
    }
}

/// A statement of the shapes the parser produces.
pub open spec fn stmt_wf(h: Hir) -> bool
    decreases h,
{
    match h {
        Hir::Expr(e) => is_plain_assign(e@),
        Hir::Macro(m) => macro_wf(m),
        Hir::Function(f) => func_wf(f),
        Hir::NoOp => true,
        Hir::Control(Control::Terms(ts)) => forall|i: int| 0 <= i < ts@.len() ==> stmt_wf(#[trigger] ts@[i]),
        Hir::Control(Control::Loop { ident, terms, .. }) => (match *ident {
            Hir::Expr(e) => is_ident(e),
            _ => false,
        }) && stmt_wf(*terms),
        Hir::Control(Control::While { comp, terms, .. }) => (match *comp {
            Hir::Expr(e) => is_atom_comparison(e@),
            _ => false,
        }) && stmt_wf(*terms),
    }
}

/// The size of a program.
pub open spec fn hsize(h: Hir) -> nat
    decreases h, 0nat,
{
    match h {
        Hir::Macro(m) => 1 + msize(m),
        Hir::Control(Control::Terms(ts)) => 1 + hsize_seq(ts@),
        Hir::Control(Control::Loop { ident, terms, .. }) => 1 + hsize(*ident) + hsize(*terms),
        Hir::Control(Control::While { comp, terms, .. }) => 1 + hsize(*comp) + hsize(*terms),
        _ => 1,
    }
}

pub open spec fn hsize_seq(ts: Seq<Hir>) -> nat
    decreases ts, 0nat,
{
    if ts.len() == 0 {
        0
    } else {
        hsize_seq(ts.drop_last()) + hsize(ts.last())
    }
}

/// The size of a macro.
pub open spec fn msize(m: Macro) -> nat
    decreases m, 0nat,
{
    match m {
        Macro::Conditional { if_terms, else_terms, .. } => 2 + hsize(*if_terms) + osize(*else_terms),
        _ => 1,
    }
}

/// The size of an optional program (0 when absent).
pub open spec fn osize(h: Option<Hir>) -> nat
    decreases h, 0nat,
{
    match h {
        Some(x) => hsize(x),
        None => 0,
    }
}

pub proof fn lemma_hsize_seq(ts: Seq<Hir>, i: int)
    requires
        0 <= i < ts.len(),
    ensures
        hsize(ts[i]) <= hsize_seq(ts),
    decreases ts.len(),
{
    if i < ts.len() - 1 {
        lemma_hsize_seq(ts.drop_last(), i);
        assert(ts.drop_last()[i] == ts[i]);
    }
}

// ---------------------------------------------------------------------------
// Copies

/// A copy of a macro assignment's right-hand side.
pub fn copy_macro_assign(a: &MacroAssign) -> (r: MacroAssign)
    ensures
        r.lhs@ == a.lhs@,
        r.verb == a.verb,
        r.rhs@ == a.rhs@,
{
    MacroAssign { lhs: Box::new(clone_expr(&a.lhs)), verb: a.verb, rhs: Box::new(clone_expr(&a.rhs)) }
}

/// A copy of a macro.
pub fn copy_macro(m: &Macro) -> (r: Macro)
    ensures
        macro_wf(*m) ==> macro_wf(r),
        msize(r) == msize(*m),
        func_free(Hir::Macro(r)) == func_free(Hir::Macro(*m)),
        forall|f: CompileFlags| #[trigger] lower_ok(Hir::Macro(r), f) == lower_ok(Hir::Macro(*m), f),
    decreases m, 0nat,
{
    match m {
        Macro::AssignToIdent { lno, lhs, rhs } => {
            let r = Macro::AssignToIdent { lno: *lno, lhs: Box::new(clone_expr(lhs)), rhs: Box::new(clone_expr(rhs)) };
            proof {
                assert forall|f: CompileFlags| #[trigger] lower_ok(Hir::Macro(r), f) == lower_ok(Hir::Macro(*m), f) by {
                    lemma_same_ok(Hir::Macro(r), Hir::Macro(*m), f);
                }
            }
            r
        },
        Macro::AssignToZero { lno, lhs } => {
            let r = Macro::AssignToZero { lno: *lno, lhs: Box::new(clone_expr(lhs)) };
            proof {
                assert forall|f: CompileFlags| #[trigger] lower_ok(Hir::Macro(r), f) == lower_ok(Hir::Macro(*m), f) by {
                    lemma_same_ok(Hir::Macro(r), Hir::Macro(*m), f);
                }
            }
            r
        },
        Macro::AssignToValue { lno, lhs, rhs } => {
            let r = Macro::AssignToValue { lno: *lno, lhs: Box::new(clone_expr(lhs)), rhs: Box::new(clone_expr(rhs)) };
            proof {
                assert forall|f: CompileFlags| #[trigger] lower_ok(Hir::Macro(r), f) == lower_ok(Hir::Macro(*m), f) by {
                    lemma_same_ok(Hir::Macro(r), Hir::Macro(*m), f);
                }
            }
            r
        },
        Macro::AssignToIdentBinOpIdent { lno, lhs, rhs } => {
            let r = Macro::AssignToIdentBinOpIdent { lno: *lno, lhs: Box::new(clone_expr(lhs)), rhs: copy_macro_assign(rhs) };
            proof {
                assert forall|f: CompileFlags| #[trigger] lower_ok(Hir::Macro(r), f) == lower_ok(Hir::Macro(*m), f) by {
                    lemma_same_ok(Hir::Macro(r), Hir::Macro(*m), f);
                }
            }
            r
        },
        Macro::AssignToIdentExtBinOpValue { lno, lhs, rhs } => {
            let r = Macro::AssignToIdentExtBinOpValue { lno: *lno, lhs: Box::new(clone_expr(lhs)), rhs: copy_macro_assign(rhs) };
            proof {
                assert forall|f: CompileFlags| #[trigger] lower_ok(Hir::Macro(r), f) == lower_ok(Hir::Macro(*m), f) by {
                    lemma_same_ok(Hir::Macro(r), Hir::Macro(*m), f);
                }
            }
            r
        },
        Macro::Conditional { lno, comp, if_terms, else_terms } => {
            let e = match &**else_terms {
                Some(h) => Some(copy_hir(h)),
                None => None,
            };
            let r = Macro::Conditional {
                lno: *lno,
                comp: Box::new(clone_expr(comp)),
                if_terms: Box::new(copy_hir(if_terms)),
                else_terms: Box::new(e),
            };
            proof {
                assert forall|f: CompileFlags| #[trigger] lower_ok(Hir::Macro(r), f) == lower_ok(Hir::Macro(*m), f) by {
                    match (e, **else_terms) {
                        (Some(x), Some(y)) => {
                            assert(lower_ok(x, f) == lower_ok(y, f));
                        },
                        _ => {},
                    }
                    lemma_same_ok(Hir::Macro(r), Hir::Macro(*m), f);
                }
            }
            r
        },
    }
}

/// A copy of a function statement.
pub fn copy_func(f: &Func) -> (r: Func)
    ensures
        func_wf(*f) ==> func_wf(r),
{
    match f {
        Func::Call { lno, lhs, rhs } => {
            let args = clone_exprs(&rhs.args);
            let r = Func::Call {
                lno: *lno,
                lhs: Box::new(clone_expr(lhs)),
                rhs: FuncCall { ident: Box::new(clone_expr(&rhs.ident)), args },
            };
            proof {
                assert(views(args@).len() == args@.len());
                assert(views(rhs.args@).len() == rhs.args@.len());
                assert forall|i: int| 0 <= i < args@.len() implies args@[i]@ == rhs.args@[i]@ by {
                    assert(views(args@)[i] == args@[i]@);
                    assert(views(rhs.args@)[i] == rhs.args@[i]@);
                }
            }
            r
        },
    }
}

/// A copy of a program.
pub fn copy_hir(h: &Hir) -> (r: Hir)
    ensures
        stmt_wf(*h) ==> stmt_wf(r),
        hsize(r) == hsize(*h),
        func_free(r) == func_free(*h),
        forall|f: CompileFlags| #[trigger] lower_ok(r, f) == lower_ok(*h, f),
        h matches Hir::Expr(e) ==> (r matches Hir::Expr(f) && f@ == e@),
    decreases h, 1nat,
{
    match h {
        Hir::Expr(e) => Hir::Expr(clone_expr(e)),
        Hir::Macro(m) => Hir::Macro(copy_macro(m)),
        Hir::Function(f) => Hir::Function(copy_func(f)),
        Hir::NoOp => Hir::NoOp,
        Hir::Control(Control::Terms(ts)) => {
            let c = copy_hirs(ts);
            let r = Hir::Control(Control::Terms(c));
            proof {
                if forall|i: int| 0 <= i < ts@.len() ==> func_free(#[trigger] ts@[i]) {
                    assert forall|i: int| 0 <= i < c@.len() implies func_free(#[trigger] c@[i]) by {
                        assert(func_free(c@[i]) == func_free(ts@[i]));
                    }
                }
                if forall|i: int| 0 <= i < c@.len() ==> func_free(#[trigger] c@[i]) {
                    assert forall|i: int| 0 <= i < ts@.len() implies func_free(#[trigger] ts@[i]) by {
                        assert(func_free(c@[i]) == func_free(ts@[i]));
                    }
                }
                assert forall|f: CompileFlags| #[trigger] lower_ok(r, f) == lower_ok(*h, f) by {
                    lemma_terms_ok(r, *h, f);
                }
            }
            r
        },
        Hir::Control(Control::Loop { lno, ident, terms }) => {
            let r = Hir::Control(Control::Loop { lno: *lno, ident: Box::new(copy_hir(ident)), terms: Box::new(copy_hir(terms)) });
            proof {
                assert forall|f: CompileFlags| #[trigger] lower_ok(r, f) == lower_ok(*h, f) by {
                    lemma_same_ok(r, *h, f);
                }
            }
            r
        },
        Hir::Control(Control::While { lno, comp, terms }) => {
            let r = Hir::Control(Control::While { lno: *lno, comp: Box::new(copy_hir(comp)), terms: Box::new(copy_hir(terms)) });
            proof {
                assert forall|f: CompileFlags| #[trigger] lower_ok(r, f) == lower_ok(*h, f) by {
                    lemma_same_ok(r, *h, f);
                }
            }
            r
        },
    }
}

proof fn lemma_hsize_seq_eq(a: Seq<Hir>, b: Seq<Hir>)
    requires
        a.len() == b.len(),
        forall|i: int| 0 <= i < a.len() ==> hsize(#[trigger] a[i]) == hsize(b[i]),
    ensures
        hsize_seq(a) == hsize_seq(b),
    decreases a.len(),
{
    if a.len() > 0 {
        assert forall|i: int| 0 <= i < a.len() - 1 implies hsize(#[trigger] a.drop_last()[i]) == hsize(b.drop_last()[i]) by {
            assert(a.drop_last()[i] == a[i]);
            assert(b.drop_last()[i] == b[i]);
        }
        lemma_hsize_seq_eq(a.drop_last(), b.drop_last());
        assert(hsize(a.last()) == hsize(b.last())) by {
            assert(a.last() == a[a.len() - 1]);
            assert(b.last() == b[b.len() - 1]);
        }
    }
}

/// A copy of a list of programs.
pub fn copy_hirs(v: &Vec<Hir>) -> (r: Vec<Hir>)
    ensures
        r@.len() == v@.len(),
        forall|i: int| 0 <= i < v@.len() ==> (stmt_wf(v@[i]) ==> stmt_wf(#[trigger] r@[i])),
        hsize_seq(r@) == hsize_seq(v@),
        forall|i: int| 0 <= i < v@.len() ==> func_free(#[trigger] r@[i]) == func_free(v@[i]),
        forall|i: int, f: CompileFlags| 0 <= i < v@.len() ==> #[trigger] lower_ok(r@[i], f) == lower_ok(v@[i], f),
    decreases v, 0nat,
{
    let mut r: Vec<Hir> = Vec::new();
    let mut i: usize = 0;
    while i < v.len()
        invariant
            i <= v.len(),
            r@.len() == i,
            forall|j: int| 0 <= j < i ==> (stmt_wf(v@[j]) ==> stmt_wf(#[trigger] r@[j])),
            forall|j: int| 0 <= j < i ==> hsize(#[trigger] r@[j]) == hsize(v@[j]),
            forall|j: int| 0 <= j < i ==> func_free(#[trigger] r@[j]) == func_free(v@[j]),
            forall|j: int, f: CompileFlags| 0 <= j < i ==> #[trigger] lower_ok(r@[j], f) == lower_ok(v@[j], f),
        decreases v.len() - i,
    {
        r.push(copy_hir(&v[i]));
        i = i + 1;
    }
    proof {
        lemma_hsize_seq_eq(r@, v@);
    }
    r
}

/// A copy of a function declaration.
pub fn copy_decl(d: &FuncDecl) -> (r: FuncDecl)
    ensures
        r.lno == d.lno,
        r.ident@ == d.ident@,
        r.ret@ == d.ret@,
        views(r.params@) == views(d.params@),
        stmt_wf(*d.terms) ==> stmt_wf(*r.terms),
        func_free(*r.terms) == func_free(*d.terms),
        forall|f: CompileFlags| #[trigger] lower_ok(*r.terms, f) == lower_ok(*d.terms, f),
{
    FuncDecl {
        lno: d.lno,
        ident: Box::new(clone_expr(&d.ident)),
        params: clone_exprs(&d.params),
        ret: Box::new(clone_expr(&d.ret)),
        terms: Box::new(copy_hir(&d.terms)),
    }
}

} // verus!
