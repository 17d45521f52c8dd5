use vstd::prelude::*;
use crate::expr::{Expr, Control, SExpr, SControl, LineNo, runnable, runnable_seq, mode_ok, mode_ok_seq, views,
    lemma_terms_view, clone_expr, spec_flatten};
use crate::uint::UInt;
use crate::verbs::{ComparisonVerb, OperatorVerb};
use crate::hir::{Hir, Macro, Func, FuncCall, FuncDecl, stmt_wf, macro_wf, func_wf, hsize, hsize_seq, msize, osize,
    lemma_hsize_seq, is_ident, is_atom};
use crate::lower::{on_stack, zero_while, value_while, add_while, number_program, slist, counted_while, copy_program, zero_program, value_from_zero, value_program, add_program, mul_program, mul_from_zero, lowered, keeps, loop_stmt, while_stmt, terms_of, gt_test, nz_test, expand_assign_to_ident,
    expand_assign_to_zero, expand_assign_to_value, expand_assign_binop_ident, expand_assign_mul_value,
    call_assign_ident, call_assign_number, renamed, lemma_renamed, is_strict_error, const_lnos, const_lnos_seq,
    const_ident, cst, lw, opt, has_const, const_clean, test_part, lemma_const_seq_any, lemma_const_seq_concat,
    gt_program, gt_temps, nz_program, nz_temps};
use crate::modctx::{FuncContext, FuncInline, FuncImport, ModuleContext, func_ctx_wf, decl_wf, ctx_keys, ctx_first, ctx_put};
use crate::modmap::{ModuleMap, map_first, mod_keys, lemma_map_first_unique};
use crate::names::{ModuleName, FuncName, FuncQualName, str_views};
use crate::context::{CompileContext, Frame, prefix_ident, spec_prefix_ident, next_count, private_name, inline_count};
use crate::errors::{Error, ErrorCode, ErrorVariant, StrictModeViolation, StdResult};
use crate::func::{could_not_find_module, could_not_find_function};
use crate::flags::{CompileFlags, LOOP, WHILE, STRCT_NO_MACRO, STRCT_NO_FUNC};

verus! {

broadcast use vstd::std_specs::vec::axiom_vec_index_decreases;

/// The program holds no function call.
pub open spec fn func_free(h: Hir) -> bool
    decreases h,
{
    match h {
        Hir::Function(_) => false,
        Hir::Macro(Macro::Conditional { if_terms, else_terms, .. }) => func_free(*if_terms) && (match *else_terms {
            Some(e) => func_free(e),
            None => true,
        }),
        Hir::Control(Control::Terms(ts)) => forall|i: int| 0 <= i < ts@.len() ==> func_free(#[trigger] ts@[i]),
        Hir::Control(Control::Loop { terms, .. }) => func_free(*terms),
        Hir::Control(Control::While { terms, .. }) => func_free(*terms),
        _ => true,
    }
}

/// The program assigns to the constant variable `_zero` itself (not through a macro).
pub open spec fn user_zero(h: Hir) -> bool
    decreases h,
{
    match h {
        Hir::Expr(e) => const_lnos(e@).len() > 0,
        Hir::Macro(Macro::Conditional { if_terms, else_terms, .. }) => user_zero(*if_terms) || (match *else_terms {
            Some(e) => user_zero(e),
            None => false,
        }),
        Hir::Control(Control::Terms(ts)) => exists|i: int| 0 <= i < ts@.len() && user_zero(#[trigger] ts@[i]),
        Hir::Control(Control::Loop { terms, .. }) => user_zero(*terms),
        Hir::Control(Control::While { terms, .. }) => user_zero(*terms),
        _ => false,
    }
}

/// The target of an assignment macro is the constant variable.
pub open spec fn targets_const(lhs: Expr) -> bool {
    lhs@ == SExpr::Ident(const_ident())
}

/// Lowering a program without function calls succeeds with `flags`: LOOP needs LOOP or
/// WHILE (and, rewritten to WHILE, macros); WHILE needs WHILE; macros need macros allowed,
/// must not assign to the constant when it is on, and need LOOP or WHILE when they
/// expand to loops (`x := 0` and `x := n` not with the dedicated zero variable).
pub open spec fn lower_ok(h: Hir, flags: CompileFlags) -> bool
    decreases h,
{
    match h {
        Hir::Expr(_) => true,
        Hir::NoOp => true,
        Hir::Function(_) => false,
        Hir::Control(Control::Terms(ts)) => forall|i: int| 0 <= i < ts@.len() ==> lower_ok(#[trigger] ts@[i], flags),
        Hir::Control(Control::Loop { terms, .. }) => lower_ok(*terms, flags) && lw(flags) && (flags.spec_contains(LOOP)
            || !flags.spec_contains(STRCT_NO_MACRO)),
        Hir::Control(Control::While { terms, .. }) => lower_ok(*terms, flags) && flags.spec_contains(WHILE),
        Hir::Macro(m) => !flags.spec_contains(STRCT_NO_MACRO) && match m {
            Macro::AssignToIdent { lhs, .. } => !(cst(flags) && targets_const(*lhs)),
            Macro::AssignToZero { lhs, .. } => (opt(flags) || lw(flags)) && !(cst(flags) && targets_const(*lhs)),
            Macro::AssignToValue { lhs, .. } => (opt(flags) || lw(flags)) && !(cst(flags) && targets_const(*lhs)),
            Macro::AssignToIdentBinOpIdent { lhs, .. } => lw(flags) && !(cst(flags) && targets_const(*lhs)),
            Macro::AssignToIdentExtBinOpValue { lhs, .. } => lw(flags) && !(cst(flags) && targets_const(*lhs)),
            Macro::Conditional { if_terms, else_terms, .. } => lw(flags) && lower_ok(*if_terms, flags) && (match *else_terms {
                Some(e) => lower_ok(e, flags),
                None => true,
            }),
        },
    }
}

/// Two programs of the same shape, whose parts lower alike, lower alike.
pub proof fn lemma_same_ok(a: Hir, b: Hir, f: CompileFlags)
    requires
        match (a, b) {
            (Hir::Expr(_), Hir::Expr(_)) => true,
            (Hir::NoOp, Hir::NoOp) => true,
            (Hir::Function(_), Hir::Function(_)) => true,
            (Hir::Control(Control::Loop { terms: t1, .. }), Hir::Control(Control::Loop { terms: t2, .. })) =>
                lower_ok(*t1, f) == lower_ok(*t2, f),
            (Hir::Control(Control::While { terms: t1, .. }), Hir::Control(Control::While { terms: t2, .. })) =>
                lower_ok(*t1, f) == lower_ok(*t2, f),
            (Hir::Macro(Macro::AssignToIdent { lhs: l1, .. }), Hir::Macro(Macro::AssignToIdent { lhs: l2, .. })) => (*l1)@ == (*l2)@,
            (Hir::Macro(Macro::AssignToZero { lhs: l1, .. }), Hir::Macro(Macro::AssignToZero { lhs: l2, .. })) => (*l1)@ == (*l2)@,
            (Hir::Macro(Macro::AssignToValue { lhs: l1, .. }), Hir::Macro(Macro::AssignToValue { lhs: l2, .. })) => (*l1)@ == (*l2)@,
            (Hir::Macro(Macro::AssignToIdentBinOpIdent { lhs: l1, .. }), Hir::Macro(Macro::AssignToIdentBinOpIdent { lhs: l2, .. })) =>
                (*l1)@ == (*l2)@,
            (Hir::Macro(Macro::AssignToIdentExtBinOpValue { lhs: l1, .. }), Hir::Macro(Macro::AssignToIdentExtBinOpValue {
                lhs: l2,
                ..
            })) => (*l1)@ == (*l2)@,
            (Hir::Macro(Macro::Conditional { if_terms: i1, else_terms: e1, .. }), Hir::Macro(Macro::Conditional {
                if_terms: i2,
                else_terms: e2,
                ..
            })) => lower_ok(*i1, f) == lower_ok(*i2, f) && match (*e1, *e2) {
                (Some(x), Some(y)) => lower_ok(x, f) == lower_ok(y, f),
                (None, None) => true,
                _ => false,
            },
            _ => false,
        },
    ensures
        lower_ok(a, f) == lower_ok(b, f),
{
}

/// Two lists whose programs lower alike lower alike.
pub proof fn lemma_terms_ok(ta: Hir, tb: Hir, f: CompileFlags)
    requires
        ta matches Hir::Control(Control::Terms(a)) && tb matches Hir::Control(Control::Terms(b)) && a@.len() == b@.len()
            && forall|i: int, g: CompileFlags| 0 <= i < a@.len() ==> #[trigger] lower_ok(a@[i], g) == lower_ok(b@[i], g),
    ensures
        lower_ok(ta, f) == lower_ok(tb, f),
{
    match (ta, tb) {
        (Hir::Control(Control::Terms(a)), Hir::Control(Control::Terms(b))) => {
            if lower_ok(tb, f) {
                assert forall|i: int| 0 <= i < a@.len() implies lower_ok(#[trigger] a@[i], f) by {
                    assert(lower_ok(a@[i], f) == lower_ok(b@[i], f));
                    assert(lower_ok(b@[i], f));
                }
            }
            if lower_ok(ta, f) {
                assert forall|i: int| 0 <= i < b@.len() implies lower_ok(#[trigger] b@[i], f) by {
                    assert(lower_ok(a@[i], f) == lower_ok(b@[i], f));
                    assert(lower_ok(a@[i], f));
                }
            }
        },
        _ => {},
    }
}

/// What lowering `h` gives without function calls: success exactly when `lower_ok`, and,
/// with constant variables on, an assignment to the constant exactly when the program
/// writes one itself.
pub open spec fn lowers_as(h: Hir, flags: CompileFlags, r: StdResult<Expr>) -> bool {
    func_free(h) ==> {
        &&& (r is Ok <==> lower_ok(h, flags))
        &&& (cst(flags) && r is Ok ==> (has_const(r) <==> user_zero(h)))
    }
}

/// What the macros `x := y`, `x := 0`, `x := n` and `x := y op z` compile to, where the
/// flags fix it: `x := y + 0`; with the dedicated zero variable `x := _zero + 0` and
/// `x := _zero + n`; else, with LOOP, a LOOP that counts `x` down (followed by
/// `x := x + n`); with LOOP, `x := y + 0` and a LOOP over `z` that steps `x`, or (without
/// the dedicated zero variable) for `*` the zeroing of `x` and a LOOP over `y` that adds
/// `z`. `None` for the other macros and flags.
pub open spec fn assign_macro_program(m: Macro, flags: CompileFlags) -> Option<SExpr> {
    match m {
        Macro::AssignToIdent { lno, lhs, rhs } => Some(copy_program(lno, (*lhs)@->Ident_0, (*rhs)@->Ident_0)),
        Macro::AssignToZero { lno, lhs } => if opt(flags) {
            Some(copy_program(lno, (*lhs)@->Ident_0, const_ident()))
        } else if flags.spec_contains(LOOP) {
            Some(zero_program(lno, (*lhs)@->Ident_0))
        } else {
            None
        },
        Macro::AssignToValue { lno, lhs, rhs } => if opt(flags) {
            Some(value_from_zero(lno, (*lhs)@->Ident_0, (*rhs)@->Num_0))
        } else if flags.spec_contains(LOOP) {
            Some(value_program(lno, (*lhs)@->Ident_0, (*rhs)@->Num_0))
        } else {
            None
        },
        Macro::AssignToIdentBinOpIdent { lno, lhs, rhs } => if !flags.spec_contains(LOOP) {
            None
        } else if rhs.verb != OperatorVerb::Multiply {
            Some(add_program(lno, (*lhs)@->Ident_0, (*rhs.lhs)@->Ident_0, rhs.verb, (*rhs.rhs)@->Ident_0))
        } else if !opt(flags) {
            Some(mul_program(lno, (*lhs)@->Ident_0, (*rhs.lhs)@->Ident_0, (*rhs.rhs)@->Ident_0))
        } else {
            Some(mul_from_zero(lno, (*lhs)@->Ident_0, (*rhs.lhs)@->Ident_0, (*rhs.rhs)@->Ident_0))
        },
        _ => None,
    }
}

/// What an assigning macro expands to with WHILE only (without the dedicated zero
/// variable), its copies counted by the `k`-th private variable, where that is fixed.
pub open spec fn while_macro_program(m: Macro, flags: CompileFlags, k: nat) -> Option<SExpr> {
    match m {
        Macro::AssignToZero { lno, lhs } => if !opt(flags) && !flags.spec_contains(LOOP) {
            Some(zero_while(lno, (*lhs)@->Ident_0, k))
        } else {
            None
        },
        Macro::AssignToValue { lno, lhs, rhs } => if !opt(flags) && !flags.spec_contains(LOOP) {
            Some(value_while(lno, (*lhs)@->Ident_0, (*rhs)@->Num_0, k))
        } else {
            None
        },
        Macro::AssignToIdentBinOpIdent { lno, lhs, rhs } => if !flags.spec_contains(LOOP) && rhs.verb != OperatorVerb::Multiply {
            Some(add_while(lno, (*lhs)@->Ident_0, (*rhs.lhs)@->Ident_0, rhs.verb, (*rhs.rhs)@->Ident_0, k))
        } else {
            None
        },
        _ => None,
    }
}

/// The core expression a statement holds (a LOOP's variable, a WHILE's condition).
pub open spec fn hir_expr(h: Hir) -> SExpr {
    match h {
        Hir::Expr(x) => x@,
        _ => SExpr::Num(0),
    }
}

/// What lowering `h` gives, where it is fixed: a core statement stays as it is, a list is
/// lowered item by item, a WHILE keeps its condition and lowers its body, a LOOP (with
/// LOOP on) keeps its variable and lowers its body, a LOOP without LOOP becomes the WHILE
/// that counts a private copy of its variable down (`counted_while`), nothing becomes the
/// empty list, the macros `x := y`, `x := 0`, `x := n`, `x := y op z` give
/// `assign_macro_program` (with WHILE only, `x := 0`, `x := n`, `x := y + z` and
/// `x := y - z` give `while_macro_program` for some private variable), and a function call
/// becomes `call_program` of an inlined function. The other macros (with WHILE only the
/// products, and the conditional ones) are left open.
pub open spec fn lowers_to(h: Hir, flags: CompileFlags, e: SExpr) -> bool
    decreases h,
{
    match h {
        Hir::Expr(x) => e == x@,
        Hir::NoOp => e == SExpr::Control(SControl::Terms(Seq::<SExpr>::empty())),
        Hir::Macro(m) => match assign_macro_program(m, flags) {
            Some(p) => e == p,
            None => while_macro_program(m, flags, 0) is Some ==> exists|k: nat| #[trigger] while_macro_program(m, flags, k) == Some(e),
        },
        Hir::Function(Func::Call { lno, lhs, rhs }) => exists|f: FuncInline| #[trigger] call_program(lno, (*lhs)@->Ident_0, rhs, f,
            flags, e),
        Hir::Control(Control::Terms(ts)) => e is Control && e->Control_0 is Terms
            && e->Control_0->Terms_0.len() == ts@.len()
            && forall|i: int| 0 <= i < ts@.len() ==> lowers_to(#[trigger] ts@[i], flags, e->Control_0->Terms_0[i]),
        Hir::Control(Control::Loop { lno, ident, terms }) => flags.spec_contains(LOOP) ==> (e is Control
            && e->Control_0 is Loop && e->Control_0->Loop_lno == lno && *e->Control_0->Loop_ident == hir_expr(*ident)
            && lowers_to(*terms, flags, *e->Control_0->Loop_terms))
            && (!flags.spec_contains(LOOP) ==> exists|k: nat, b: SExpr| lowers_to(*terms, flags, b)
            && e == #[trigger] counted_while(lno, hir_expr(*ident)->Ident_0, b, private_name(k))),
        Hir::Control(Control::While { lno, comp, terms }) => e is Control && e->Control_0 is While
            && e->Control_0->While_lno == lno && *e->Control_0->While_comp == hir_expr(*comp)
            && lowers_to(*terms, flags, *e->Control_0->While_terms),
    }
}

/// Each comparison expands into comparisons of lower rank.
pub open spec fn verb_rank(v: ComparisonVerb) -> nat {
    match v {
        ComparisonVerb::GreaterThan => 0,
        ComparisonVerb::GreaterThanEqual => 1,
        ComparisonVerb::LessThan => 1,
        ComparisonVerb::LessThanEqual => 2,
        ComparisonVerb::Equal => 3,
        ComparisonVerb::NotEqual => 4,
    }
}

/// The size of an optional branch, at least 1.
pub open spec fn branch_size(h: Option<&Hir>) -> nat {
    match h {
        Some(x) => if hsize(*x) == 0 { 1 } else { hsize(*x) },
        None => 1,
    }
}

proof fn lemma_hsize_pos(h: Hir)
    ensures
        hsize(h) >= 1,
{
}

/// A function inlined from a declaration: its body is lowered.
pub open spec fn inlined(r: StdResult<FuncInline>, flags: crate::flags::CompileFlags) -> bool {
    r matches Ok(i) ==> runnable(i.terms@) && mode_ok(i.terms@, flags)
}

fn ident_str(e: &Expr) -> (r: &String)
    requires
        e@ is Ident,
    ensures
        e@ == SExpr::Ident(r@),
{
    match e {
        Expr::Ident(s) => s,
        _ => vstd::pervasive::unreached(),
    }
}

fn num_of(e: &Expr) -> (r: &UInt)
    requires
        e@ is Num,
    ensures
        e@ == SExpr::Num(r@),
{
    match e {
        Expr::NaturalNumber(n) => n,
        _ => vstd::pervasive::unreached(),
    }
}

impl Hir {
    /// Lowers the program to the core language: macros are expanded, function calls
    /// inlined, and LOOPs rewritten to WHILEs when only `WHILE` is enabled. All errors of
    /// a statement list are reported.
    pub fn lower(&self, context: &mut CompileContext) -> (r: StdResult<Expr>)
        requires
            stmt_wf(*self),
            old(context).wf(),
        ensures
            lowered(r, old(context).flags),
            keeps(*old(context), *final(context)),
            lowers_as(*self, old(context).flags, r),
            r matches Ok(e) ==> lowers_to(*self, old(context).flags, e@),
        decreases old(context).fuel(), hsize(*self), 9nat,
    {
        match self {
            Hir::Control(Control::Terms(ts)) => {
                let mut maybe: Vec<StdResult<Expr>> = Vec::new();
                let mut i: usize = 0;
                while i < ts.len()
                    invariant
                        i <= ts@.len(),
                        maybe@.len() == i,
                        *self == Hir::Control(Control::Terms(*ts)),
                        stmt_wf(*self),
                        old(context).wf(),
                        keeps(*old(context), *context),
                        forall|j: int| 0 <= j < i ==> lowered(#[trigger] maybe@[j], old(context).flags),
                        forall|j: int| 0 <= j < i ==> lowers_as(ts@[j], old(context).flags, #[trigger] maybe@[j]),
                        forall|j: int| 0 <= j < i ==> (#[trigger] maybe@[j] matches Ok(x) ==> lowers_to(ts@[j], old(context).flags, x@)),
                    decreases ts.len() - i,
                {
                    proof {
                        lemma_hsize_seq(ts@, i as int);
                    }
                    let r = ts[i].lower(context);
                    maybe.push(r);
                    i = i + 1;
                }
                let ghost m = maybe@;
                let ghost flags = context.flags;
                let r = terms_of(maybe, Ghost(context.flags));
                proof {
                    if r is Ok {
                        let es = r->Ok_0@->Control_0->Terms_0;
                        assert forall|j: int| 0 <= j < ts@.len() implies lowers_to(#[trigger] ts@[j], flags, es[j]) by {
                            if m[j] is Err {
                                assert(exists|k: int| 0 <= k < m.len() && (#[trigger] m[k]) is Err);
                            }
                            assert(m[j] matches Ok(x) ==> lowers_to(ts@[j], flags, x@));
                        }
                    }
                    if func_free(*self) {
                        assert forall|j: int| 0 <= j < m.len() implies (#[trigger] m[j] is Ok <==> lower_ok(ts@[j], flags)) by {
                            assert(func_free(ts@[j]));
                            assert(lowers_as(ts@[j], flags, m[j]));
                        }
                        if r is Ok {
                            assert forall|j: int| 0 <= j < ts@.len() implies lower_ok(#[trigger] ts@[j], flags) by {
                                assert(m[j] is Ok <==> lower_ok(ts@[j], flags));
                            }
                        } else {
                            let j = choose|j: int| 0 <= j < m.len() && (#[trigger] m[j]) is Err;
                            assert(!lower_ok(ts@[j], flags));
                        }
                        if lower_ok(*self, flags) {
                            assert forall|j: int| 0 <= j < m.len() implies !(#[trigger] m[j] is Err) by {
                                assert(lower_ok(ts@[j], flags));
                            }
                        }
                        if cst(flags) && r is Ok {
                            let sq = Seq::new(m.len(), |j: int| m[j]->Ok_0@);
                            lemma_const_seq_any(sq);
                            assert forall|j: int| 0 <= j < sq.len() implies (const_lnos(#[trigger] sq[j]).len() > 0 <==> user_zero(ts@[j])) by {
                                assert(func_free(ts@[j]));
                                assert(lowers_as(ts@[j], flags, m[j]));
                                assert(m[j] is Ok);
                            }
                            if user_zero(*self) {
                                let j = choose|j: int| 0 <= j < ts@.len() && user_zero(#[trigger] ts@[j]);
                                assert(const_lnos(sq[j]).len() > 0);
                            }
                            if has_const(r) {
                                let j = choose|j: int| 0 <= j < sq.len() && const_lnos(#[trigger] sq[j]).len() > 0;
                                assert(user_zero(ts@[j]));
                            }
                        }
                    }
                }
                r
            },
            Hir::Control(Control::Loop { lno, ident, terms }) => {
                let name = match &**ident {
                    Hir::Expr(e) => ident_str(e),
                    _ => vstd::pervasive::unreached(),
                };
                let t = terms.lower(context);
                let ghost k = context.counter();
                let ghost flags = context.flags;
                let r = loop_stmt(context, *lno, name, t);
                proof {
                    let b = flags.bits;
                    assert(b & 3u16 != 0u16 && b & 1u16 != 1u16 ==> b & 2u16 == 2u16) by (bit_vector);
                    if r is Ok && !flags.spec_contains(LOOP) {
                        assert(lowers_to(**terms, flags, t->Ok_0@));
                    }
                }
                r
            },
            Hir::Control(Control::While { lno, comp, terms }) => {
                let c = match &**comp {
                    Hir::Expr(e) => clone_expr(e),
                    _ => vstd::pervasive::unreached(),
                };
                let t = terms.lower(context);
                let ghost cv = c@;
                let r = while_stmt(context, *lno, c, t);
                proof {
                    if r is Ok {
                        assert(const_lnos(cv) =~= Seq::<LineNo>::empty());
                        assert(const_lnos(r->Ok_0@) =~= const_lnos(cv) + const_lnos(t->Ok_0@));
                    }
                }
                r
            },
            Hir::NoOp => {
                let v: Vec<Expr> = Vec::new();
                proof {
                    lemma_terms_view(v);
                }
                let e = Expr::Control(Control::Terms(v));
                proof {
                    assert(views(Seq::<Expr>::empty()) =~= Seq::<SExpr>::empty());
                    assert(runnable_seq(Seq::<SExpr>::empty()));
                    assert(mode_ok_seq(Seq::<SExpr>::empty(), context.flags));
                    assert(const_lnos_seq(Seq::<SExpr>::empty()) =~= Seq::<LineNo>::empty());
                }
                Ok(e)
            },
            Hir::Expr(n) => Ok(clone_expr(n)),
            Hir::Macro(m) => m.lower(context),
            Hir::Function(f) => f.lower(context),
        }
    }
}

impl Macro {
    /// Expands the macro (refused in strict mode without macros).
    pub fn lower(&self, context: &mut CompileContext) -> (r: StdResult<Expr>)
        requires
            macro_wf(*self),
            old(context).wf(),
        ensures
            lowered(r, old(context).flags),
            keeps(*old(context), *final(context)),
            old(context).flags.spec_contains(STRCT_NO_MACRO) ==> (r matches Err(es) && es@.len() == 1
                && is_strict_error(es@[0], self.lno(), StrictModeViolation::MacroForbidden)),
            lowers_as(Hir::Macro(*self), old(context).flags, r),
            assign_macro_program(*self, old(context).flags) matches Some(p) ==> (r matches Ok(e) ==> e@ == p),
            while_macro_program(*self, old(context).flags, old(context).counter()) matches Some(p) ==> (r matches Ok(e) ==> e@ == p),
        decreases old(context).fuel(), 1 + msize(*self), 8nat,
    {
        if context.flags.contains(STRCT_NO_MACRO) {
            let mut es: Vec<Error> = Vec::new();
            es.push(
                Error::new_from_code(Some(self.get_lno()), ErrorCode::StrictModeViolation { violation: StrictModeViolation::MacroForbidden }),
            );
            return Err(es);
        }
        match self {
            Macro::AssignToIdent { lno, lhs, rhs } => expand_assign_to_ident(context, *lno, ident_str(lhs), ident_str(rhs)),
            Macro::AssignToZero { lno, lhs } => expand_assign_to_zero(context, *lno, ident_str(lhs)),
            Macro::AssignToValue { lno, lhs, rhs } => expand_assign_to_value(context, *lno, ident_str(lhs), num_of(rhs)),
            Macro::AssignToIdentBinOpIdent { lno, lhs, rhs } => expand_assign_binop_ident(
                context,
                *lno,
                ident_str(lhs),
                ident_str(&rhs.lhs),
                rhs.verb,
                ident_str(&rhs.rhs),
            ),
            Macro::AssignToIdentExtBinOpValue { lno, lhs, rhs } => expand_assign_mul_value(
                context,
                *lno,
                ident_str(lhs),
                ident_str(&rhs.lhs),
                num_of(&rhs.rhs),
            ),
            Macro::Conditional { lno, comp, if_terms, else_terms } => {
                let else_ref: Option<&Hir> = match &**else_terms {
                    Some(h) => Some(h),
                    None => None,
                };
                proof {
                    lemma_hsize_pos(**if_terms);
                    assert(branch_size(else_ref) <= osize(**else_terms) + 1);
                }
                match &**comp {
                    Expr::Comparison { lhs, verb, rhs } => lower_cond(context, *lno, *verb, lhs, rhs, if_terms, else_ref),
                    _ => vstd::pervasive::unreached(),
                }
            },
        }
    }

    /// The line of the macro.
    pub open spec fn lno(&self) -> LineNo {
        match self {
            Macro::AssignToIdent { lno, .. } => *lno,
            Macro::AssignToZero { lno, .. } => *lno,
            Macro::AssignToValue { lno, .. } => *lno,
            Macro::AssignToIdentBinOpIdent { lno, .. } => *lno,
            Macro::AssignToIdentExtBinOpValue { lno, .. } => *lno,
            Macro::Conditional { lno, .. } => *lno,
        }
    }

    /// The line of the macro.
    pub fn get_lno(&self) -> (r: LineNo)
        ensures
            r == self.lno(),
    {
        match self {
            Macro::AssignToIdent { lno, .. } => *lno,
            Macro::AssignToZero { lno, .. } => *lno,
            Macro::AssignToValue { lno, .. } => *lno,
            Macro::AssignToIdentBinOpIdent { lno, .. } => *lno,
            Macro::AssignToIdentExtBinOpValue { lno, .. } => *lno,
            Macro::Conditional { lno, .. } => *lno,
        }
    }
}

/// The order comparisons: `>`, `>=`, `<` and `<=`.
pub open spec fn is_order(verb: ComparisonVerb) -> bool {
    verb == ComparisonVerb::GreaterThan || verb == ComparisonVerb::GreaterThanEqual || verb == ComparisonVerb::LessThan
        || verb == ComparisonVerb::LessThanEqual
}

/// How an order comparison of `x` and `y` is tested: as `a > b`, or as `a >= b` when the
/// flag is set, with `a`, `b` the two sides in the order given.
pub open spec fn order_test(verb: ComparisonVerb, x: SExpr, y: SExpr) -> (bool, SExpr, SExpr) {
    match verb {
        ComparisonVerb::GreaterThan => (false, x, y),
        ComparisonVerb::LessThan => (false, y, x),
        ComparisonVerb::LessThanEqual => (true, y, x),
        _ => (true, x, y),
    }
}

/// `LOOP t DO body END`.
pub open spec fn flag_loop(lno: LineNo, t: Seq<char>, body: SExpr) -> SExpr {
    SExpr::Control(SControl::Loop { lno, ident: Box::new(SExpr::Ident(t)), terms: Box::new(body) })
}

/// `IF x verb y THEN .. ELSE .. END` for an order comparison, compiled from the private
/// counter `c` with the branches compiled to `bi` and `be`: the test, then a LOOP over
/// each of its two flags around the branch that the flag selects.
pub open spec fn if_program(lno: LineNo, verb: ComparisonVerb, x: SExpr, y: SExpr, c: nat, flags: CompileFlags,
    bi: SExpr, be: Option<SExpr>) -> SExpr {
    let (ge, a, b) = order_test(verb, x, y);
    let k = c + gt_temps(ge, a, b);
    let test = gt_program(lno, ge, a, b, c, flags);
    match be {
        Some(b2) => slist(seq![test, flag_loop(lno, private_name(k + 1), bi), flag_loop(lno, private_name(k + 2), b2)]),
        None => slist(seq![test, flag_loop(lno, private_name(k + 1), bi)]),
    }
}

/// `IF x != 0 THEN .. ELSE .. END` compiled from the private counter `c` with the branches
/// compiled to `bi` and `be`: the test of `x != 0`, then a LOOP over each of its two flags
/// around the branch that the flag selects.
pub open spec fn nz_if_program(lno: LineNo, x: SExpr, c: nat, flags: CompileFlags, bi: SExpr, be: Option<SExpr>) -> SExpr {
    let k = c + nz_temps(x);
    let test = nz_program(lno, x, c, flags);
    match be {
        Some(b2) => slist(seq![test, flag_loop(lno, private_name(k), bi), flag_loop(lno, private_name(k + 1), b2)]),
        None => slist(seq![test, flag_loop(lno, private_name(k), bi)]),
    }
}

/// `IF x == y THEN .. ELSE .. END` compiled from the private counter `c`: the test of
/// `x >= y`, then a LOOP over its first flag around `IF x <= y` (compiled from the
/// counter after the test, with the THEN branch compiled to `bi` and the ELSE branch to
/// `be1`), and a LOOP over its second flag around the ELSE branch compiled to `be2`.
pub open spec fn eq_program(lno: LineNo, x: SExpr, y: SExpr, c: nat, flags: CompileFlags, bi: SExpr, be1: Option<SExpr>,
    be2: Option<SExpr>) -> SExpr {
    let k = c + gt_temps(true, x, y);
    let test = gt_program(lno, true, x, y, c, flags);
    let inner = if_program(lno, ComparisonVerb::LessThanEqual, x, y, k + 3, flags, bi, be1);
    match be2 {
        Some(b2) => slist(seq![test, flag_loop(lno, private_name(k + 1), inner), flag_loop(lno, private_name(k + 2), b2)]),
        None => slist(seq![test, flag_loop(lno, private_name(k + 1), inner)]),
    }
}

/// A test followed by a LOOP over each of two flags around a branch (the second only
/// where there is one).
pub open spec fn branches(lno: LineNo, test: SExpr, fi: Seq<char>, fe: Seq<char>, bi: SExpr, be: Option<SExpr>) -> SExpr {
    match be {
        Some(b2) => slist(seq![test, flag_loop(lno, fi, bi), flag_loop(lno, fe, b2)]),
        None => slist(seq![test, flag_loop(lno, fi, bi)]),
    }
}

proof fn lemma_swap_shape(lno: LineNo, x: SExpr, y: SExpr, c0: nat, flags: CompileFlags, swapped: Hir, if_terms: Hir,
    else_none: bool, ev: SExpr)
    requires
        exists|bi: SExpr, be1: Option<SExpr>, be2: Option<SExpr>| ev == #[trigger] eq_program(lno, x, y, c0, flags, bi, be1, be2)
            && lowers_to(swapped, flags, bi) && (be1 matches Some(b1) && lowers_to(if_terms, flags, b1) && (be2 matches Some(b2)
            && lowers_to(if_terms, flags, b2))),
        else_none ==> swapped is Control && swapped->Control_0 is Terms && swapped->Control_0->Terms_0@.len() == 0,
    ensures
        exists|bs: SExpr, b1: SExpr, b2: SExpr| ev == #[trigger] eq_program(lno, x, y, c0, flags, bs, Some(b1), Some(b2))
            && lowers_to(if_terms, flags, b1) && lowers_to(if_terms, flags, b2) && lowers_to(swapped, flags, bs)
            && (else_none ==> bs == slist(Seq::<SExpr>::empty())),
{
    let (bs, be1, be2) = choose|bi: SExpr, be1: Option<SExpr>, be2: Option<SExpr>|
        ev == #[trigger] eq_program(lno, x, y, c0, flags, bi, be1, be2) && lowers_to(swapped, flags, bi) && (be1 matches Some(b1)
        && lowers_to(if_terms, flags, b1) && (be2 matches Some(b2) && lowers_to(if_terms, flags, b2)));
    if else_none {
        assert(bs->Control_0->Terms_0 =~= Seq::<SExpr>::empty());
    }
    assert(ev == eq_program(lno, x, y, c0, flags, bs, Some(be1->Some_0), Some(be2->Some_0)));
}

proof fn lemma_cond_shape(lno: LineNo, verb: ComparisonVerb, x: SExpr, y: SExpr, c0: nat, c1: nat, flags: CompileFlags, tv: SExpr,
    fi: Seq<char>, fe: Seq<char>, ib: SExpr, eb: Option<SExpr>, if_terms: Hir, else_terms: Option<Hir>, ev: SExpr)
    requires
        ev == branches(lno, tv, fi, fe, ib, eb),
        flags.spec_contains(LOOP) && c0 + 6 < usize::MAX && verb != ComparisonVerb::NotEqual ==> ({
            let (ge, a, b) = order_test(verb, x, y);
            &&& tv == gt_program(lno, ge, a, b, c0, flags)
            &&& fi == private_name(c0 + gt_temps(ge, a, b) + 1)
            &&& fe == private_name(c0 + gt_temps(ge, a, b) + 2)
            &&& c1 == c0 + gt_temps(ge, a, b) + 3
        }),
        flags.spec_contains(LOOP) && c0 + 6 < usize::MAX && verb == ComparisonVerb::NotEqual ==> tv == nz_program(lno, x, c0, flags)
            && fi == private_name(c0 + nz_temps(x)) && fe == private_name(c0 + nz_temps(x) + 1),
        verb != ComparisonVerb::Equal ==> lowers_to(if_terms, flags, ib),
        verb == ComparisonVerb::Equal && flags.spec_contains(LOOP) && c1 + 6 < usize::MAX ==> exists|bi: SExpr, be: Option<SExpr>|
            ib == #[trigger] if_program(lno, ComparisonVerb::LessThanEqual, x, y, c1, flags, bi, be) && lowers_to(if_terms, flags, bi)
            && (else_terms matches Some(h) ==> (be matches Some(b1) && lowers_to(h, flags, b1))) && (else_terms is None ==> be is None),
        else_terms matches Some(h) ==> (eb matches Some(b2) && lowers_to(h, flags, b2)),
        else_terms is None ==> eb is None,
    ensures
        is_order(verb) && flags.spec_contains(LOOP) && c0 + 6 < usize::MAX ==> exists|bi: SExpr, be: Option<SExpr>|
            ev == #[trigger] if_program(lno, verb, x, y, c0, flags, bi, be) && lowers_to(if_terms, flags, bi)
            && (else_terms matches Some(h) ==> (be matches Some(b2) && lowers_to(h, flags, b2))) && (else_terms is None ==> be is None),
        verb == ComparisonVerb::Equal && flags.spec_contains(LOOP) && c0 + 12 < usize::MAX ==> exists|bi: SExpr, be1: Option<SExpr>,
            be2: Option<SExpr>| ev == #[trigger] eq_program(lno, x, y, c0, flags, bi, be1, be2) && lowers_to(if_terms, flags, bi)
            && (else_terms matches Some(h) ==> (be1 matches Some(b1) && lowers_to(h, flags, b1) && (be2 matches Some(b2)
            && lowers_to(h, flags, b2)))) && (else_terms is None ==> be1 is None && be2 is None),
        verb == ComparisonVerb::NotEqual && flags.spec_contains(LOOP) && c0 + 6 < usize::MAX ==> exists|bi: SExpr, be: Option<SExpr>|
            ev == #[trigger] nz_if_program(lno, x, c0, flags, bi, be) && lowers_to(if_terms, flags, bi)
            && (else_terms matches Some(h) ==> (be matches Some(b2) && lowers_to(h, flags, b2))) && (else_terms is None ==> be is None),
{
    if flags.spec_contains(LOOP) && c0 + 6 < usize::MAX {
        if is_order(verb) {
            assert(ev == if_program(lno, verb, x, y, c0, flags, ib, eb));
        }
        if verb == ComparisonVerb::NotEqual {
            assert(ev == nz_if_program(lno, x, c0, flags, ib, eb));
        }
        if verb == ComparisonVerb::Equal && c0 + 12 < usize::MAX {
            let (bi, be1) = choose|bi: SExpr, be: Option<SExpr>|
                ib == #[trigger] if_program(lno, ComparisonVerb::LessThanEqual, x, y, c1, flags, bi, be) && lowers_to(if_terms, flags, bi)
                && (else_terms matches Some(h) ==> (be matches Some(b1) && lowers_to(h, flags, b1))) && (else_terms is None ==> be is None);
            assert(ev == eq_program(lno, x, y, c0, flags, bi, be1, eb));
        }
    }
}

/// `IF x verb y THEN if_terms ELSE else_terms END`: a test that sets one of two private
/// flags, then a LOOP over each flag around its branch. `x > y` is tested directly,
/// `x >= y` as `x + 1 > y`, `x < y` as `y > x`, `x <= y` as `y >= x`, `x != 0` by its own
/// test, `x == y` as `x >= y` around `x <= y`, and `x != y` as `x == y` with the
/// branches swapped.
#[verifier::rlimit(100)]
fn lower_cond(context: &mut CompileContext, lno: LineNo, verb: ComparisonVerb, x: &Expr, y: &Expr, if_terms: &Hir,
    else_terms: Option<&Hir>) -> (r: StdResult<Expr>)
    requires
        is_atom(*x),
        is_atom(*y),
        stmt_wf(*if_terms),
        else_terms matches Some(h) ==> stmt_wf(*h),
        old(context).wf(),
        !old(context).flags.spec_contains(STRCT_NO_MACRO),
    ensures
        lowered(r, old(context).flags),
        keeps(*old(context), *final(context)),
        func_free(*if_terms) && (else_terms matches Some(h) ==> func_free(*h)) ==> {
            &&& (r is Ok <==> (lw(old(context).flags) && lower_ok(*if_terms, old(context).flags)
                && (else_terms matches Some(h) ==> lower_ok(*h, old(context).flags))))
            &&& (cst(old(context).flags) && r is Ok ==> (has_const(r) <==> (user_zero(*if_terms)
                || (else_terms matches Some(h) && user_zero(*h)))))
        },
        is_order(verb) && old(context).flags.spec_contains(LOOP) && old(context).counter() + 6 < usize::MAX ==> (r matches Ok(
            e) ==> exists|bi: SExpr, be: Option<SExpr>|
            e@ == #[trigger] if_program(lno, verb, x@, y@, old(context).counter(), old(context).flags, bi, be)
            && lowers_to(*if_terms, old(context).flags, bi) && (else_terms matches Some(h) ==> (be matches Some(b2)
            && lowers_to(*h, old(context).flags, b2))) && (else_terms is None ==> be is None)),
        verb == ComparisonVerb::Equal && old(context).flags.spec_contains(LOOP) && old(context).counter() + 12 < usize::MAX
            ==> (r matches Ok(e) ==> exists|bi: SExpr, be1: Option<SExpr>, be2: Option<SExpr>|
            e@ == #[trigger] eq_program(lno, x@, y@, old(context).counter(), old(context).flags, bi, be1, be2)
            && lowers_to(*if_terms, old(context).flags, bi) && (else_terms matches Some(h) ==> (be1 matches Some(b1)
            && lowers_to(*h, old(context).flags, b1) && (be2 matches Some(b2) && lowers_to(*h, old(context).flags, b2))))
            && (else_terms is None ==> be1 is None && be2 is None)),
        verb == ComparisonVerb::NotEqual && y@ != SExpr::Num(0) && old(context).flags.spec_contains(LOOP)
            && old(context).counter() + 12 < usize::MAX ==> (r matches Ok(e) ==> exists|bs: SExpr, b1: SExpr, b2: SExpr|
            e@ == #[trigger] eq_program(lno, x@, y@, old(context).counter(), old(context).flags, bs, Some(b1), Some(b2))
            && lowers_to(*if_terms, old(context).flags, b1) && lowers_to(*if_terms, old(context).flags, b2)
            && (else_terms matches Some(h) ==> lowers_to(*h, old(context).flags, bs))
            && (else_terms is None ==> bs == slist(Seq::<SExpr>::empty()))),
        verb == ComparisonVerb::NotEqual && y@ == SExpr::Num(0) && old(context).flags.spec_contains(LOOP)
            && old(context).counter() + 6 < usize::MAX ==> (r matches Ok(e) ==> exists|bi: SExpr, be: Option<SExpr>|
            e@ == #[trigger] nz_if_program(lno, x@, old(context).counter(), old(context).flags, bi, be)
            && lowers_to(*if_terms, old(context).flags, bi) && (else_terms matches Some(h) ==> (be matches Some(b2)
            && lowers_to(*h, old(context).flags, b2))) && (else_terms is None ==> be is None)),
    decreases old(context).fuel(), hsize(*if_terms) + branch_size(else_terms), verb_rank(verb),
{
    let ghost flags = context.flags;
    let ghost c0 = context.counter();
    proof {
        lemma_hsize_pos(*if_terms);
    }
    let rhs_zero = match y {
        Expr::NaturalNumber(n) => n.is_zero(),
        _ => false,
    };
    if verb == ComparisonVerb::NotEqual && !rhs_zero {
        let empty = Hir::Control(Control::Terms(Vec::new()));
        proof {
            assert(hsize_seq(Seq::<Hir>::empty()) == 0);
            assert(hsize(empty) == 1);
        }
        proof {
            assert(func_free(empty));
            assert(lower_ok(empty, flags));
            assert(!user_zero(empty));
            assert(stmt_wf(empty));
        }
        let swapped: &Hir = match else_terms {
            Some(h) => h,
            None => &empty,
        };
        let r = lower_cond(context, lno, ComparisonVerb::Equal, x, y, swapped, Some(if_terms));
        proof {
            if flags.spec_contains(LOOP) && c0 + 12 < usize::MAX && r is Ok {
                lemma_swap_shape(lno, x@, y@, c0, flags, *swapped, *if_terms, else_terms is None, r->Ok_0@);
            }
        }
        return r;
    }
    let (test, flag_if, flag_else) = if verb == ComparisonVerb::NotEqual {
        nz_test(context, lno, x)
    } else if verb == ComparisonVerb::GreaterThan {
        gt_test(context, lno, false, x, y)
    } else if verb == ComparisonVerb::LessThan {
        gt_test(context, lno, false, y, x)
    } else if verb == ComparisonVerb::LessThanEqual {
        gt_test(context, lno, true, y, x)
    } else {
        gt_test(context, lno, true, x, y)
    };
    let ghost c1 = context.counter();
    let ghost free = func_free(*if_terms) && (else_terms matches Some(h) ==> func_free(*h));
    let ghost else_ok = else_terms matches Some(h) ==> lower_ok(*h, flags);
    let ghost else_uz = else_terms matches Some(h) && user_zero(*h);
    let if_body = if verb == ComparisonVerb::Equal {
        lower_cond(context, lno, ComparisonVerb::LessThanEqual, x, y, if_terms, else_terms)
    } else {
        if_terms.lower(context)
    };
    let ghost if_ok = if verb == ComparisonVerb::Equal {
        lw(flags) && lower_ok(*if_terms, flags) && else_ok
    } else {
        lower_ok(*if_terms, flags)
    };
    let ghost if_uz = if verb == ComparisonVerb::Equal {
        user_zero(*if_terms) || else_uz
    } else {
        user_zero(*if_terms)
    };
    assert(free ==> (if_body is Ok <==> if_ok));
    assert(free && cst(flags) && if_body is Ok ==> (has_const(if_body) <==> if_uz));
    let if_loop = loop_stmt(context, lno, &flag_if, if_body);
    let mut parts: Vec<StdResult<Expr>> = Vec::new();
    parts.push(test);
    parts.push(if_loop);
    let ghost two = parts@;
    match else_terms {
        Some(h) => {
            let else_body = h.lower(context);
            let else_loop = loop_stmt(context, lno, &flag_else, else_body);
            proof {
                assert(lowers_as(*h, flags, else_body));
            }
            parts.push(else_loop);
            let ghost m = parts@;
            let r = terms_of(parts, Ghost(flags));
            proof {
                assert(m[0] == test && m[1] == if_loop && m[2] == else_loop);
                if flags.spec_contains(LOOP) && r is Ok {
                    assert(m[0] is Ok && m[1] is Ok && m[2] is Ok);
                    let ev = r->Ok_0@;
                    let eb = Some(else_body->Ok_0@);
                    let bv = branches(lno, test->Ok_0@, flag_if@, flag_else@, if_body->Ok_0@, eb);
                    assert(ev->Control_0->Terms_0 =~= bv->Control_0->Terms_0);
                    lemma_cond_shape(lno, verb, x@, y@, c0, c1, flags, test->Ok_0@, flag_if@, flag_else@, if_body->Ok_0@, eb,
                        *if_terms, Some(*h), ev);
                }
                if test is Err {
                    assert(m[0] is Err);
                }
                if if_loop is Err {
                    assert(m[1] is Err);
                }
                if else_loop is Err {
                    assert(m[2] is Err);
                }
                if r is Err {
                    let i = choose|i: int| 0 <= i < m.len() && (#[trigger] m[i]) is Err;
                    assert(i == 0 || i == 1 || i == 2);
                }
                if r is Ok {
                    let sq = Seq::new(m.len(), |i: int| m[i]->Ok_0@);
                    assert(sq =~= (seq![m[0]->Ok_0@] + seq![m[1]->Ok_0@]) + seq![m[2]->Ok_0@]);
                    lemma_const_seq_concat(seq![m[0]->Ok_0@] + seq![m[1]->Ok_0@], seq![m[2]->Ok_0@]);
                    lemma_const_seq_concat(seq![m[0]->Ok_0@], seq![m[1]->Ok_0@]);
                    crate::lower::lemma_const_seq_single(m[0]->Ok_0@);
                    crate::lower::lemma_const_seq_single(m[1]->Ok_0@);
                    crate::lower::lemma_const_seq_single(m[2]->Ok_0@);
                }
            }
            r
        },
        None => {
            let ghost m = parts@;
            let r = terms_of(parts, Ghost(flags));
            proof {
                assert(m[0] == test && m[1] == if_loop);
                if flags.spec_contains(LOOP) && r is Ok {
                    assert(m[0] is Ok && m[1] is Ok);
                    let ev = r->Ok_0@;
                    let bv = branches(lno, test->Ok_0@, flag_if@, flag_else@, if_body->Ok_0@, None);
                    assert(ev->Control_0->Terms_0 =~= bv->Control_0->Terms_0);
                    lemma_cond_shape(lno, verb, x@, y@, c0, c1, flags, test->Ok_0@, flag_if@, flag_else@, if_body->Ok_0@, None,
                        *if_terms, None, ev);
                }
                if test is Err {
                    assert(m[0] is Err);
                }
                if if_loop is Err {
                    assert(m[1] is Err);
                }
                if r is Err {
                    let i = choose|i: int| 0 <= i < m.len() && (#[trigger] m[i]) is Err;
                    assert(i == 0 || i == 1);
                }
                if r is Ok {
                    let sq = Seq::new(m.len(), |i: int| m[i]->Ok_0@);
                    assert(sq =~= seq![m[0]->Ok_0@] + seq![m[1]->Ok_0@]);
                    lemma_const_seq_concat(seq![m[0]->Ok_0@], seq![m[1]->Ok_0@]);
                    crate::lower::lemma_const_seq_single(m[0]->Ok_0@);
                    crate::lower::lemma_const_seq_single(m[1]->Ok_0@);
                }
            }
            r
        },
    }
}

impl Func {
    /// Inlines the called function (refused in strict mode without functions).
    pub fn lower(&self, context: &mut CompileContext) -> (r: StdResult<Expr>)
        requires
            func_wf(*self),
            old(context).wf(),
        ensures
            lowered(r, old(context).flags),
            keeps(*old(context), *final(context)),
            old(context).flags.spec_contains(STRCT_NO_FUNC) ==> (r matches Err(es) && es@.len() == 1
                && is_strict_error(es@[0], self->Call_lno, StrictModeViolation::FuncForbidden)),
            r matches Ok(e) ==> exists|f: FuncInline| #[trigger] call_program(self->Call_lno, (*self->Call_lhs)@->Ident_0,
                self->Call_rhs, f, old(context).flags, e@),
        decreases old(context).fuel(), 1nat, 8nat,
    {
        match self {
            Func::Call { lno, lhs, rhs } => {
                if context.flags.contains(STRCT_NO_FUNC) {
                    let mut es: Vec<Error> = Vec::new();
                    es.push(
                        Error::new_from_code(Some(*lno), ErrorCode::StrictModeViolation { violation: StrictModeViolation::FuncForbidden }),
                    );
                    return Err(es);
                }
                lower_call(context, *lno, lhs, rhs)
            },
        }
    }
}

/// The module the current frame runs in.
pub open spec fn frame_module(c: CompileContext) -> Seq<Seq<char>> {
    if c.depth() == 0 {
        seq!["fs"@, "main"@]
    } else {
        c.stack@.last().module@
    }
}

/// In the module context `mc`, the function `name` is known, and every entry of it is an
/// already inlined function of which `p` holds.
pub open spec fn inlined_where(mc: ModuleContext, name: Seq<char>, p: spec_fn(FuncInline) -> bool) -> bool {
    &&& exists|j: int| 0 <= j < mc.0@.len() && mc.0@[j].0@ == name
    &&& forall|j: int| #![trigger mc.0@[j]] 0 <= j < mc.0@.len() && mc.0@[j].0@ == name ==> (mc.0@[j].1 matches FuncContext::Inline(f)
        && p(f))
}

/// The parameters `ps` take the arguments of `rhs`: one per argument, none the constant
/// variable where constants are on, and a number passed only where the zero variable or
/// LOOP/WHILE is on.
pub open spec fn params_ready(ps: Seq<Seq<char>>, rhs: FuncCall, flags: CompileFlags) -> bool {
    &&& ps.len() == rhs.args@.len()
    &&& forall|k: int| #![trigger rhs.args@[k]] 0 <= k < rhs.args@.len() ==> !(cst(flags) && ps[k] == const_ident())
        && (rhs.args@[k]@ is Num ==> opt(flags) || lw(flags))
}

/// The function that `rhs` calls is known in the current module, and in every context of
/// that module it is an already inlined function of which `p` holds.
pub open spec fn call_found(c: CompileContext, rhs: FuncCall, p: spec_fn(FuncInline) -> bool) -> bool {
    &&& rhs.ident@ is Ident
    &&& exists|i: int| 0 <= i < c.modules.0@.len() && c.modules.0@[i].0@ == frame_module(c)
    &&& forall|i: int| 0 <= i < c.modules.0@.len() && c.modules.0@[i].0@ == frame_module(c)
        ==> inlined_where(#[trigger] c.modules.0@[i].1, rhs.ident@->Ident_0, p)
}

/// The call `lhs := rhs` compiles: macros are allowed, the target is not the constant
/// variable where constants are on, and the called function is found inlined with
/// parameters that take the arguments.
pub open spec fn call_ready(c: CompileContext, lhs: Expr, rhs: FuncCall) -> bool {
    &&& !c.flags.spec_contains(STRCT_NO_MACRO)
    &&& !(cst(c.flags) && lhs@->Ident_0 == const_ident())
    &&& call_found(c, rhs, |f: FuncInline| params_ready(str_views(f.params@), rhs, c.flags))
}

/// The called function is found inlined, but with another number of parameters than the
/// call has arguments.
pub open spec fn call_misfit(c: CompileContext, rhs: FuncCall) -> bool {
    call_found(c, rhs, |f: FuncInline| f.params@.len() != rhs.args@.len())
}

/// What `x := a` compiles to for the argument `a` of a call: `x := y + 0` for a variable
/// `y`, the number macro for a number (given with the zero variable or `LOOP`).
pub open spec fn arg_program(lno: LineNo, x: Seq<char>, a: SExpr, flags: CompileFlags, t: SExpr) -> bool {
    match a {
        SExpr::Ident(y) => t == spec_flatten(slist(seq![copy_program(lno, x, y)])),
        SExpr::Num(n) => opt(flags) || flags.spec_contains(LOOP) ==> t == spec_flatten(slist(seq![number_program(lno, x, n, flags)])),
        _ => false,
    }
}

/// `e` is the compiled call `lhs := rhs` with the inlined function `f`: each argument
/// assigned to its parameter, then the body of `f`, then `lhs := ret` for the result
/// variable `ret` of `f`.
pub open spec fn call_program(lno: LineNo, lhs: Seq<char>, rhs: FuncCall, f: FuncInline, flags: CompileFlags, e: SExpr) -> bool {
    let n = rhs.args@.len() as int;
    &&& f.params@.len() == n
    &&& e matches SExpr::Control(SControl::Terms(ts)) && ts.len() == n + 2
        && (forall|k: int| 0 <= k < n ==> arg_program(lno, f.params@[k]@, rhs.args@[k]@, flags, #[trigger] ts[k]))
        && ts[n] == f.terms@
        && ts[n + 1] == spec_flatten(slist(seq![copy_program(lno, lhs, f.ret@)]))
}

/// In the module `module` of `m`, the first entry of `name` is an inlined function with
/// the parameters, result variable and body of `f`.
pub open spec fn binds_inline(m: ModuleMap, module: Seq<Seq<char>>, name: Seq<char>, f: FuncInline) -> bool {
    exists|i: int, j: int| #[trigger] map_first(m.0@, module, i) && #[trigger] ctx_first(m.0@[i].1, name, j)
        && (m.0@[i].1.0@[j].1 matches FuncContext::Inline(g) && str_views(g.params@) == str_views(f.params@)
        && g.ret@ == f.ret@ && g.terms@ == f.terms@)
}

/// In the module context `mc`, the function `name` is known, and every entry of it is a
/// declared (not yet inlined) function of which `p` holds.
pub open spec fn declared_where(mc: ModuleContext, name: Seq<char>, p: spec_fn(FuncDecl) -> bool) -> bool {
    &&& exists|j: int| 0 <= j < mc.0@.len() && mc.0@[j].0@ == name
    &&& forall|j: int| #![trigger mc.0@[j]] 0 <= j < mc.0@.len() && mc.0@[j].0@ == name ==> (mc.0@[j].1 matches FuncContext::Func(d)
        && p(d))
}

/// The function that `rhs` calls is known in the current module, and in every context of
/// that module it is a declared function of which `p` holds.
pub open spec fn call_declared(c: CompileContext, rhs: FuncCall, p: spec_fn(FuncDecl) -> bool) -> bool {
    &&& rhs.ident@ is Ident
    &&& exists|i: int| 0 <= i < c.modules.0@.len() && c.modules.0@[i].0@ == frame_module(c)
    &&& forall|i: int| 0 <= i < c.modules.0@.len() && c.modules.0@[i].0@ == frame_module(c)
        ==> declared_where(#[trigger] c.modules.0@[i].1, rhs.ident@->Ident_0, p)
}

/// The parameters of `d` as its `k`-th inlining as `q` names them.
pub open spec fn inlined_params(d: FuncDecl, q: (Seq<Seq<char>>, Seq<char>), k: nat) -> Seq<Seq<char>> {
    Seq::new(d.params@.len(), |j: int| spec_prefix_ident(q, k, d.params@[j]@->Ident_0))
}

/// The declared function `d` of the current module can be inlined for the call `rhs`: fuel
/// is left, it is not already being inlined, its body calls no function and lowers, and
/// its parameters, renamed for this inlining, take the arguments.
pub open spec fn decl_ready(c: CompileContext, d: FuncDecl, rhs: FuncCall) -> bool {
    let q = (frame_module(c), (*d.ident)@->Ident_0);
    &&& c.fuel() > 0
    &&& !repeats_with(c.stack@, q)
    &&& func_free(*d.terms)
    &&& lower_ok(*d.terms, c.flags)
    &&& params_ready(inlined_params(d, q, next_count(c.inline_counter@, q)), rhs, c.flags)
}

/// The first call `lhs := rhs` of a declared function compiles: macros are allowed, the
/// target is not the constant variable where constants are on, and the function can be
/// inlined for the call.
pub open spec fn call_first_ready(c: CompileContext, lhs: Expr, rhs: FuncCall) -> bool {
    &&& !c.flags.spec_contains(STRCT_NO_MACRO)
    &&& !(cst(c.flags) && lhs@->Ident_0 == const_ident())
    &&& call_declared(c, rhs, |d: FuncDecl| decl_ready(c, d, rhs))
}

/// The declared function `d` can be inlined as a function of `module`: fuel is left, it is
/// not being inlined already, it calls no function and its body compiles.
pub open spec fn inline_ready(c: CompileContext, d: FuncDecl, module: Seq<Seq<char>>) -> bool {
    &&& c.fuel() > 0
    &&& !repeats_with(c.stack@, (module, (*d.ident)@->Ident_0))
    &&& func_free(*d.terms)
    &&& lower_ok(*d.terms, c.flags)
}

/// The module of the import `imp` is known, and its first context has the function of
/// `imp` as a declared function of which `p` holds.
pub open spec fn import_declared(c: CompileContext, imp: FuncImport, p: spec_fn(FuncDecl) -> bool) -> bool {
    exists|i: int| #[trigger] map_first(c.modules.0@, imp.module@, i) && declared_where(c.modules.0@[i].1, imp.ident@, p)
}

/// Every entry of `name` in `mc` is an import of which `p` holds, and there is one.
pub open spec fn imported_where(mc: ModuleContext, name: Seq<char>, p: spec_fn(FuncImport) -> bool) -> bool {
    &&& exists|j: int| 0 <= j < mc.0@.len() && mc.0@[j].0@ == name
    &&& forall|j: int| #![trigger mc.0@[j]] 0 <= j < mc.0@.len() && mc.0@[j].0@ == name ==> (mc.0@[j].1 matches FuncContext::Import(i)
        && p(i))
}

/// The first call `lhs := rhs` of an imported function compiles: macros are allowed, the
/// target is not the constant variable where constants are on, and the function that the
/// import names is declared in its module and can be inlined for the call.
pub open spec fn call_import_ready(c: CompileContext, lhs: Expr, rhs: FuncCall) -> bool {
    &&& !c.flags.spec_contains(STRCT_NO_MACRO)
    &&& !(cst(c.flags) && lhs@->Ident_0 == const_ident())
    &&& rhs.ident@ is Ident
    &&& exists|i: int| 0 <= i < c.modules.0@.len() && c.modules.0@[i].0@ == frame_module(c)
    &&& forall|i: int| 0 <= i < c.modules.0@.len() && c.modules.0@[i].0@ == frame_module(c)
        ==> imported_where(#[trigger] c.modules.0@[i].1, rhs.ident@->Ident_0,
        |m: FuncImport| import_declared(c, m, |d: FuncDecl| decl_ready(c, d, rhs)))
}

/// A lookup of an imported function gives an import of which `p` holds.
proof fn lemma_imported_func(mc: ModuleContext, name: Seq<char>, p: spec_fn(FuncImport) -> bool, fc: FuncContext)
    requires
        imported_where(mc, name, p),
        exists|j: int| 0 <= j < mc.0@.len() && mc.0@[j].0@ == name && fc == mc.0@[j].1,
    ensures
        fc matches FuncContext::Import(i) && p(i),
{
    let j = choose|j: int| 0 <= j < mc.0@.len() && mc.0@[j].0@ == name && fc == mc.0@[j].1;
    assert(mc.0@[j].0@ == name);
}

/// An imported function is among the names of its module context.
proof fn lemma_imported_key(mc: ModuleContext, name: Seq<char>, p: spec_fn(FuncImport) -> bool)
    requires
        imported_where(mc, name, p),
    ensures
        ctx_keys(mc).contains(name),
{
    let j = choose|j: int| 0 <= j < mc.0@.len() && mc.0@[j].0@ == name;
    assert(ctx_keys(mc)[j] == name);
}

/// A declaration of which `p` holds is one of which any weaker `p2` holds.
proof fn lemma_declared_weaken(mc: ModuleContext, name: Seq<char>, p: spec_fn(FuncDecl) -> bool, p2: spec_fn(FuncDecl) -> bool)
    requires
        declared_where(mc, name, p),
        forall|d: FuncDecl| #[trigger] p(d) ==> p2(d),
    ensures
        declared_where(mc, name, p2),
{
    assert forall|j: int| #![trigger mc.0@[j]] 0 <= j < mc.0@.len() && mc.0@[j].0@ == name implies (mc.0@[j].1 matches FuncContext::Func(d)
        && p2(d)) by {
        assert(mc.0@[j].1 matches FuncContext::Func(d) && p(d));
    }
}

/// The modules know at least the functions of each of them.
proof fn lemma_functions_total(s: Seq<(ModuleName, ModuleContext)>, i: int)
    requires
        0 <= i < s.len(),
    ensures
        functions_total(s) >= s[i].1.0@.len(),
    decreases s.len(),
{
    if i < s.len() - 1 {
        lemma_functions_total(s.drop_last(), i);
        assert(s.drop_last()[i] == s[i]);
    }
}

/// The context of the current module that a lookup finds has the function as
/// `call_declared` says.
proof fn lemma_declared_module(c: CompileContext, rhs: FuncCall, p: spec_fn(FuncDecl) -> bool, mc: ModuleContext)
    requires
        call_declared(c, rhs, p),
        exists|i: int| 0 <= i < c.modules.0@.len() && c.modules.0@[i].0@ == frame_module(c) && mc == c.modules.0@[i].1,
    ensures
        declared_where(mc, rhs.ident@->Ident_0, p),
{
    let i = choose|i: int| 0 <= i < c.modules.0@.len() && c.modules.0@[i].0@ == frame_module(c) && mc == c.modules.0@[i].1;
    assert(declared_where(c.modules.0@[i].1, rhs.ident@->Ident_0, p));
}

/// A declared function found is among the names of its module context.
proof fn lemma_declared_key(mc: ModuleContext, name: Seq<char>, p: spec_fn(FuncDecl) -> bool)
    requires
        declared_where(mc, name, p),
    ensures
        ctx_keys(mc).contains(name),
{
    let j = choose|j: int| 0 <= j < mc.0@.len() && mc.0@[j].0@ == name;
    assert(ctx_keys(mc)[j] == name);
}

/// What a lookup of a declared function found gives: a declaration of which `p` holds.
proof fn lemma_declared_func(mc: ModuleContext, name: Seq<char>, p: spec_fn(FuncDecl) -> bool, fc: FuncContext)
    requires
        declared_where(mc, name, p),
        exists|j: int| 0 <= j < mc.0@.len() && mc.0@[j].0@ == name && fc == mc.0@[j].1,
    ensures
        fc matches FuncContext::Func(d) && p(d),
{
    let j = choose|j: int| 0 <= j < mc.0@.len() && mc.0@[j].0@ == name && fc == mc.0@[j].1;
    assert(mc.0@[j].0@ == name);
}

/// The context of the current module that a lookup finds has the function as `call_found`
/// says.
proof fn lemma_found_module(c: CompileContext, rhs: FuncCall, p: spec_fn(FuncInline) -> bool, mc: ModuleContext)
    requires
        call_found(c, rhs, p),
        exists|i: int| 0 <= i < c.modules.0@.len() && c.modules.0@[i].0@ == frame_module(c) && mc == c.modules.0@[i].1,
    ensures
        inlined_where(mc, rhs.ident@->Ident_0, p),
{
    let i = choose|i: int| 0 <= i < c.modules.0@.len() && c.modules.0@[i].0@ == frame_module(c) && mc == c.modules.0@[i].1;
    assert(inlined_where(c.modules.0@[i].1, rhs.ident@->Ident_0, p));
}

/// A function found is among the names of its module context.
proof fn lemma_found_key(mc: ModuleContext, name: Seq<char>, p: spec_fn(FuncInline) -> bool)
    requires
        inlined_where(mc, name, p),
    ensures
        ctx_keys(mc).contains(name),
{
    let j = choose|j: int| 0 <= j < mc.0@.len() && mc.0@[j].0@ == name;
    assert(ctx_keys(mc)[j] == name);
}

/// What a lookup of a found function gives: an inlined function of which `p` holds.
proof fn lemma_found_func(mc: ModuleContext, name: Seq<char>, p: spec_fn(FuncInline) -> bool, fc: FuncContext)
    requires
        inlined_where(mc, name, p),
        exists|j: int| 0 <= j < mc.0@.len() && mc.0@[j].0@ == name && fc == mc.0@[j].1,
    ensures
        fc matches FuncContext::Inline(f) && p(f),
{
    let j = choose|j: int| 0 <= j < mc.0@.len() && mc.0@[j].0@ == name && fc == mc.0@[j].1;
    assert(mc.0@[j].0@ == name);
}

/// After a function is stored in a module, the module binds it.
proof fn lemma_stored(m0: ModuleMap, m1: ModuleMap, module: Seq<Seq<char>>, name: Seq<char>, f: FuncInline, g: FuncInline)
    requires
        m1.0@.len() == m0.0@.len(),
        exists|i: int| #[trigger] map_first(m0.0@, module, i) && m1.0@[i].0 == m0.0@[i].0
            && ctx_put(m0.0@[i].1, m1.0@[i].1, name, FuncContext::Inline(g))
            && forall|j: int| 0 <= j < m0.0@.len() && j != i ==> m1.0@[j] == m0.0@[j],
        str_views(g.params@) == str_views(f.params@),
        g.ret@ == f.ret@,
        g.terms@ == f.terms@,
    ensures
        binds_inline(m1, module, name, f),
{
    let i = choose|i: int| #[trigger] map_first(m0.0@, module, i) && m1.0@[i].0 == m0.0@[i].0
        && ctx_put(m0.0@[i].1, m1.0@[i].1, name, FuncContext::Inline(g))
        && forall|j: int| 0 <= j < m0.0@.len() && j != i ==> m1.0@[j] == m0.0@[j];
    assert forall|j: int| 0 <= j < i implies m1.0@[j].0@ != module by {
        assert(m1.0@[j] == m0.0@[j]);
    }
    assert(map_first(m1.0@, module, i));
    let c0 = m0.0@[i].1;
    let c1 = m1.0@[i].1;
    if exists|k: int| #[trigger] ctx_first(c0, name, k) && c1.0@.len() == c0.0@.len() && c1.0@[k].0@ == name
        && c1.0@[k].1 == FuncContext::Inline(g) && forall|j: int| 0 <= j < c0.0@.len() && j != k ==> #[trigger] c1.0@[j] == c0.0@[j] {
        let k = choose|k: int| #[trigger] ctx_first(c0, name, k) && c1.0@.len() == c0.0@.len() && c1.0@[k].0@ == name
            && c1.0@[k].1 == FuncContext::Inline(g) && forall|j: int| 0 <= j < c0.0@.len() && j != k ==> #[trigger] c1.0@[j] == c0.0@[j];
        assert forall|j: int| 0 <= j < k implies c1.0@[j].0@ != name by {
            assert(c1.0@[j] == c0.0@[j]);
        }
        assert(ctx_first(c1, name, k));
    } else {
        let k = c0.0@.len() as int;
        assert forall|j: int| 0 <= j < k implies c1.0@[j].0@ != name by {
            assert(c1.0@[j] == c0.0@[j]);
            assert(ctx_keys(c0)[j] == c0.0@[j].0@);
        }
        assert(c1.0@[k] == c1.0@.last());
        assert(ctx_first(c1, name, k));
    }
}

/// A function declared where an import points, ready for a call, is ready to be inlined as
/// a function of the calling module.
proof fn lemma_import_ready(c: CompileContext, rhs: FuncCall, im: FuncImport)
    requires
        import_declared(c, im, |d: FuncDecl| decl_ready(c, d, rhs)),
    ensures
        import_declared(c, im, |d: FuncDecl| inline_ready(c, d, frame_module(c))),
{
    let pd = |d: FuncDecl| decl_ready(c, d, rhs);
    let pr = |d: FuncDecl| inline_ready(c, d, frame_module(c));
    let i = choose|i: int| #[trigger] map_first(c.modules.0@, im.module@, i) && declared_where(c.modules.0@[i].1, im.ident@, pd);
    assert forall|d: FuncDecl| #[trigger] pd(d) implies pr(d) by {
        assert(decl_ready(c, d, rhs));
    }
    lemma_declared_weaken(c.modules.0@[i].1, im.ident@, pd, pr);
}

/// The parameters of an imported function inlined for a call, its declaration ready for the
/// call, take the arguments of the call.
proof fn lemma_import_params(c: CompileContext, rhs: FuncCall, im: FuncImport, inline: FuncInline)
    requires
        import_declared(c, im, |d: FuncDecl| decl_ready(c, d, rhs)),
        exists|i: int| #[trigger] map_first(c.modules.0@, im.module@, i)
            && exists|e: int| 0 <= e < c.modules.0@[i].1.0@.len()
            && (#[trigger] c.modules.0@[i].1.0@[e]).0@ == im.ident@
            && (c.modules.0@[i].1.0@[e].1 matches FuncContext::Func(o) && exists|d: FuncDecl| d.ident@ == o.ident@
            && views(d.params@) == views(o.params@) && #[trigger] inlined_as(d, frame_module(c),
            next_count(c.inline_counter@, (frame_module(c), (*d.ident)@->Ident_0)), c.flags, inline)),
    ensures
        params_ready(str_views(inline.params@), rhs, c.flags),
        inline.params@.len() == rhs.args@.len(),
{
    let module = frame_module(c);
    let pd = |d: FuncDecl| decl_ready(c, d, rhs);
    let i = choose|i: int| #[trigger] map_first(c.modules.0@, im.module@, i)
        && exists|e: int| 0 <= e < c.modules.0@[i].1.0@.len()
        && (#[trigger] c.modules.0@[i].1.0@[e]).0@ == im.ident@
        && (c.modules.0@[i].1.0@[e].1 matches FuncContext::Func(o) && exists|d: FuncDecl| d.ident@ == o.ident@
        && views(d.params@) == views(o.params@) && #[trigger] inlined_as(d, module,
        next_count(c.inline_counter@, (module, (*d.ident)@->Ident_0)), c.flags, inline));
    let e = choose|e: int| 0 <= e < c.modules.0@[i].1.0@.len()
        && (#[trigger] c.modules.0@[i].1.0@[e]).0@ == im.ident@
        && (c.modules.0@[i].1.0@[e].1 matches FuncContext::Func(o) && exists|d: FuncDecl| d.ident@ == o.ident@
        && views(d.params@) == views(o.params@) && #[trigger] inlined_as(d, module,
        next_count(c.inline_counter@, (module, (*d.ident)@->Ident_0)), c.flags, inline));
    let o = c.modules.0@[i].1.0@[e].1->Func_0;
    let d = choose|d: FuncDecl| d.ident@ == o.ident@ && views(d.params@) == views(o.params@) && #[trigger] inlined_as(d, module,
        next_count(c.inline_counter@, (module, (*d.ident)@->Ident_0)), c.flags, inline);
    let i0 = choose|i: int| #[trigger] map_first(c.modules.0@, im.module@, i) && declared_where(c.modules.0@[i].1, im.ident@, pd);
    lemma_map_first_unique(c.modules.0@, im.module@, i, i0);
    assert(pd(o));
    assert(decl_ready(c, o, rhs));
    let q = (module, (*o.ident)@->Ident_0);
    let k = next_count(c.inline_counter@, q);
    assert(views(d.params@).len() == d.params@.len());
    assert(views(o.params@).len() == o.params@.len());
    assert(str_views(inline.params@) =~= inlined_params(o, q, k)) by {
        assert forall|j: int| 0 <= j < inline.params@.len() implies str_views(inline.params@)[j]
            == inlined_params(o, q, k)[j] by {
            assert(inline.params@[j]@ == spec_prefix_ident(q, k, d.params@[j]@->Ident_0));
            assert(views(d.params@)[j] == d.params@[j]@);
            assert(views(o.params@)[j] == o.params@[j]@);
        }
    }
}

/// `lhs := f(args)`: resolves `f` in the module being compiled, inlines it (and keeps the
/// inlined function for later calls), then assigns the arguments to the parameters, runs
/// the body and assigns the returned variable to `lhs`.
pub fn lower_call(context: &mut CompileContext, lno: LineNo, lhs: &Expr, rhs: &FuncCall) -> (r: StdResult<Expr>)
    requires
        lhs@ is Ident,
        forall|i: int| 0 <= i < rhs.args@.len() ==> is_atom(#[trigger] rhs.args@[i]),
        old(context).wf(),
    ensures
        lowered(r, old(context).flags),
        keeps(*old(context), *final(context)),
        call_ready(*old(context), *lhs, *rhs) ==> r is Ok,
        call_first_ready(*old(context), *lhs, *rhs) ==> r is Ok,
        call_import_ready(*old(context), *lhs, *rhs) ==> r is Ok,
        call_misfit(*old(context), *rhs) ==> (r matches Err(es) && es@.len() == 1 && es@[0].lno == lno
            && (es@[0].variant matches ErrorVariant::ErrorCode(ErrorCode::FunctionUnexpectedNumberOfArguments { got, .. })
            && got == rhs.args@.len())),
        r matches Ok(e) ==> exists|f: FuncInline| #[trigger] call_program(lno, lhs@->Ident_0, *rhs, f, old(context).flags, e@)
            && binds_inline(final(context).modules, frame_module(*old(context)), rhs.ident@->Ident_0, f),
    decreases old(context).fuel(), 1nat, 7nat,
{
    let ghost flags = context.flags;
    let ghost ready = call_ready(*context, *lhs, *rhs);
    let ghost misfit = call_misfit(*context, *rhs);
    let ghost pr = |f: FuncInline| params_ready(str_views(f.params@), *rhs, flags);
    let ghost pm = |f: FuncInline| f.params@.len() != rhs.args@.len();
    let ghost first = call_first_ready(*context, *lhs, *rhs);
    let ghost c0 = *context;
    let ghost pd = |d: FuncDecl| decl_ready(c0, d, *rhs);
    let ghost impf = call_import_ready(*context, *lhs, *rhs);
    let ghost pi = |m: FuncImport| import_declared(c0, m, pd);
    let frame = context.get_current_frame();
    let module = frame.module;
    assert(module@ == frame_module(*context));
    let name = match rhs.get_ident() {
        Ok(s) => s,
        Err(es) => {
            return Err(es);
        },
    };
    let func_name = FuncName::from(name);
    let ghost fname = func_name@;
    assert(fname == rhs.ident@->Ident_0);
    let mctx = match context.modules.get(&module) {
        Some(m) => m,
        None => {
            return Err(could_not_find_module(Some(lno), &module));
        },
    };
    proof {
        if ready {
            lemma_found_module(*context, *rhs, pr, *mctx);
        }
        if misfit {
            lemma_found_module(*context, *rhs, pm, *mctx);
        }
        if first {
            lemma_declared_module(*context, *rhs, pd, *mctx);
        }
        if impf {
            let i = choose|i: int| 0 <= i < c0.modules.0@.len() && c0.modules.0@[i].0@ == frame_module(c0) && *mctx == c0.modules.0@[i].1;
            assert(imported_where(c0.modules.0@[i].1, rhs.ident@->Ident_0, pi));
        }
    }
    let fc = match mctx.get(&func_name) {
        Some(f) => {
            proof {
                if ready {
                    lemma_found_func(*mctx, fname, pr, *f);
                }
                if misfit {
                    lemma_found_func(*mctx, fname, pm, *f);
                }
                if first {
                    lemma_declared_func(*mctx, fname, pd, *f);
                }
                if impf {
                    lemma_imported_func(*mctx, fname, pi, *f);
                }
            }
            let c = f.copy();
            let ghost fo = *f;
            let ghost co = c;
            proof {
                if first {
                    match (fo, co) {
                        (FuncContext::Func(d), FuncContext::Func(e)) => {
                            let q = (frame_module(c0), (*d.ident)@->Ident_0);
                            let k = next_count(c0.inline_counter@, q);
                            assert(views(e.params@).len() == e.params@.len());
                            assert(views(d.params@).len() == d.params@.len());
                            assert(inlined_params(e, q, k) =~= inlined_params(d, q, k)) by {
                                assert forall|j: int| 0 <= j < e.params@.len() implies inlined_params(e, q, k)[j]
                                    == inlined_params(d, q, k)[j] by {
                                    assert(views(e.params@)[j] == views(d.params@)[j]);
                                    assert(e.params@[j]@ == views(e.params@)[j]);
                                    assert(d.params@[j]@ == views(d.params@)[j]);
                                }
                            }
                            assert(lower_ok(*e.terms, c0.flags) == lower_ok(*d.terms, c0.flags));
                            assert(decl_ready(c0, e, *rhs));
                        },
                        _ => {},
                    }
                }
            }
            c
        },
        None => {
            proof {
                if ready {
                    lemma_found_key(*mctx, fname, pr);
                }
                if misfit {
                    lemma_found_key(*mctx, fname, pm);
                }
                if first {
                    lemma_declared_key(*mctx, fname, pd);
                }
                if impf {
                    lemma_imported_key(*mctx, fname, pi);
                }
            }
            return Err(could_not_find_function(Some(lno), &module, &func_name));
        },
    };
    assert(ready ==> (fc matches FuncContext::Inline(f) && params_ready(str_views(f.params@), *rhs, flags)));
    assert(misfit ==> (fc matches FuncContext::Inline(f) && str_views(f.params@).len() != rhs.args@.len()));
    let ghost c1 = *context;
    proof {
        if impf {
            lemma_import_ready(c0, *rhs, fc->Import_0);
        }
    }
    let inline = match inline_ctx(context, &fc, &module) {
        Ok(i) => i,
        Err(es) => {
            return Err(es);
        },
    };
    assert((ready || misfit) ==> *context == c1);
    assert(ready ==> params_ready(str_views(inline.params@), *rhs, flags) && inline.params@.len() == rhs.args@.len());
    assert(misfit ==> str_views(inline.params@).len() != rhs.args@.len());
    assert(first ==> (fc matches FuncContext::Func(e) && decl_ready(c0, e, *rhs)));
    proof {
        if first {
            match fc {
                FuncContext::Func(e) => {
                    let q = (module@, (*e.ident)@->Ident_0);
                    let k = next_count(c1.inline_counter@, q);
                    assert forall|j: int| 0 <= j < e.params@.len() implies (#[trigger] e.params@[j])@ == views(e.params@)[j] by {}
                    assert(str_views(inline.params@) =~= inlined_params(e, q, k)) by {
                        assert forall|j: int| 0 <= j < inline.params@.len() implies str_views(inline.params@)[j]
                            == inlined_params(e, q, k)[j] by {
                            assert(inline.params@[j]@ == spec_prefix_ident(q, k, e.params@[j]@->Ident_0));
                        }
                    }
                },
                _ => {},
            }
        }
    }
    assert(first ==> params_ready(str_views(inline.params@), *rhs, flags) && inline.params@.len() == rhs.args@.len());
    proof {
        if impf {
            lemma_import_params(c0, *rhs, fc->Import_0, inline);
        }
    }
    assert(impf ==> params_ready(str_views(inline.params@), *rhs, flags) && inline.params@.len() == rhs.args@.len());
    let ghost fi = inline;
    let copied = inline.copy();
    let ghost gi = copied;
    let value = FuncContext::Inline(copied);
    let ghost gv = value;
    assert(func_ctx_wf(value, flags));
    let ghost m0 = context.modules;
    let cached = context.modules.insert_func(&module, func_name.copy(), value);
    assert(m0.wf(flags) ==> context.modules.wf(flags));
    proof {
        if cached {
            let i = choose|i: int| #[trigger] map_first(m0.0@, module@, i) && context.modules.0@[i].0 == m0.0@[i].0
                && ctx_put(m0.0@[i].1, context.modules.0@[i].1, fname, gv)
                && forall|j: int| 0 <= j < m0.0@.len() && j != i ==> context.modules.0@[j] == m0.0@[j];
            assert forall|j: int| 0 <= j < m0.0@.len() implies mod_keys(context.modules)[j] == mod_keys(m0)[j] by {
                if j != i {
                    assert(context.modules.0@[j] == m0.0@[j]);
                }
            }
        }
        assert(mod_keys(context.modules) =~= mod_keys(m0));
    }
    proof {
        if first || impf {
            let i = choose|i: int| 0 <= i < c0.modules.0@.len() && c0.modules.0@[i].0@ == frame_module(c0);
            assert(mod_keys(c0.modules)[i] == module@);
            assert(mod_keys(m0)[i] == module@);
            assert(m0.0@[i].0@ == module@);
        }
    }
    if !cached {
        return Err(could_not_find_module(Some(lno), &module));
    }
    proof {
        lemma_stored(m0, context.modules, module@, fname, fi, gi);
    }
    let ghost m1 = context.modules;
    if rhs.args.len() != inline.params.len() {
        let mut es: Vec<Error> = Vec::new();
        es.push(
            Error::new_from_code(
                Some(lno),
                ErrorCode::FunctionUnexpectedNumberOfArguments {
                    module: module.to_string(),
                    func: func_name.to_string(),
                    expected: inline.params.len(),
                    got: rhs.args.len(),
                },
            ),
        );
        return Err(es);
    }
    assert(!misfit);
    let FuncInline { params, ret, terms, .. } = inline;
    let mut stmts: Vec<Expr> = Vec::new();
    let mut errors: Vec<Error> = Vec::new();
    let mut failed = false;
    let mut i: usize = 0;
    while i < params.len()
        invariant
            i <= params@.len(),
            params@.len() == rhs.args@.len(),
            params@ == fi.params@,
            forall|k: int| 0 <= k < rhs.args@.len() ==> is_atom(#[trigger] rhs.args@[k]),
            flags == old(context).flags,
            keeps(*old(context), *context),
            context.modules == m1,
            forall|j: int| 0 <= j < stmts@.len() ==> runnable((#[trigger] stmts@[j])@) && mode_ok(stmts@[j]@, flags),
            !failed ==> stmts@.len() == i
                && forall|k: int| 0 <= k < i ==> arg_program(lno, params@[k]@, rhs.args@[k]@, flags, #[trigger] stmts@[k]@),
            ready == call_ready(*old(context), *lhs, *rhs),
            first == call_first_ready(*old(context), *lhs, *rhs),
            impf == call_import_ready(*old(context), *lhs, *rhs),
            (ready || first || impf) ==> !failed && errors@.len() == 0 && !flags.spec_contains(STRCT_NO_MACRO) && params_ready(str_views(params@), *rhs, flags),
        decreases params.len() - i,
    {
        assert(str_views(params@)[i as int] == params@[i as int]@);
        let c = match &rhs.args[i] {
            Expr::Ident(m) => call_assign_ident(context, lno, &params[i], m),
            Expr::NaturalNumber(n) => call_assign_number(context, lno, &params[i], n),
            _ => {
                proof {
                    assert(is_atom(rhs.args@[i as int]));
                }
                vstd::pervasive::unreached()
            },
        };
        match c {
            Ok(e) => {
                stmts.push(e);
            },
            Err(es) => {
                let mut es = es;
                errors.append(&mut es);
                failed = true;
            },
        }
        i = i + 1;
    }
    stmts.push(terms);
    let back = call_assign_ident(context, lno, ident_str(lhs), &ret);
    match back {
        Ok(e) => {
            stmts.push(e);
        },
        Err(es) => {
            let mut es = es;
            errors.append(&mut es);
            failed = true;
        },
    }
    if failed || errors.len() > 0 {
        return Err(errors);
    }
    proof {
        lemma_terms_view(stmts);
        assert forall|j: int| 0 <= j < views(stmts@).len() implies runnable(#[trigger] views(stmts@)[j]) && mode_ok(
            views(stmts@)[j],
            flags,
        ) by {
            assert(views(stmts@)[j] == stmts@[j]@);
        }
        assert(runnable_seq(views(stmts@)));
        assert(mode_ok_seq(views(stmts@), flags));
        let n = rhs.args@.len() as int;
        let ts = views(stmts@);
        assert forall|k: int| 0 <= k < n implies arg_program(lno, fi.params@[k]@, rhs.args@[k]@, flags, #[trigger] ts[k]) by {
            assert(ts[k] == stmts@[k]@);
        }
        assert(ts[n] == stmts@[n]@);
        assert(ts[n + 1] == stmts@[n + 1]@);
        assert(call_program(lno, lhs@->Ident_0, *rhs, fi, flags, Expr::Control(Control::Terms(stmts))@));
    }
    Ok(Expr::Control(Control::Terms(stmts)))
}

/// The number of functions known in all modules (saturating), bounding chains of imports.
fn count_functions(m: &ModuleMap) -> (r: usize)
    ensures
        r == (if functions_total(m.0@) < usize::MAX { functions_total(m.0@) } else { usize::MAX as nat }),
{
    let mut n: usize = 0;
    let mut i: usize = 0;
    while i < m.0.len()
        invariant
            i <= m.0@.len(),
            n == (if functions_total(m.0@.take(i as int)) < usize::MAX { functions_total(m.0@.take(i as int)) } else { usize::MAX as nat }),
        decreases m.0.len() - i,
    {
        let k = (m.0[i].1).0.len();
        proof {
            assert(m.0@.take(i + 1).drop_last() =~= m.0@.take(i as int));
            assert(m.0@.take(i + 1).last() == m.0@[i as int]);
        }
        n = if n <= usize::MAX - k { n + k } else { usize::MAX };
        i = i + 1;
    }
    assert(m.0@.take(i as int) =~= m.0@);
    n
}

/// Inlines what a function context stands for, following imports to the declaration.
fn inline_ctx(context: &mut CompileContext, fc: &FuncContext, module: &ModuleName) -> (r: StdResult<FuncInline>)
    requires
        func_ctx_wf(*fc, old(context).flags),
        old(context).wf(),
    ensures
        inlined(r, old(context).flags),
        keeps(*old(context), *final(context)),
        *fc matches FuncContext::Inline(i) ==> (r matches Ok(j) && j.lno == i.lno && j.ident@ == i.ident@
            && str_views(j.params@) == str_views(i.params@) && j.ret@ == i.ret@ && j.terms@ == i.terms@
            && *final(context) == *old(context)),
        *fc matches FuncContext::Func(d) ==> (old(context).fuel() > 0
            && !repeats_with(old(context).stack@, (module@, (*d.ident)@->Ident_0))
            && func_free(*d.terms) && lower_ok(*d.terms, old(context).flags) ==> (r matches Ok(j)
            && j.lno == d.lno && j.ident@ == (*d.ident)@->Ident_0 && j.params@.len() == d.params@.len())),
        *fc matches FuncContext::Func(d) ==> (r matches Ok(j) ==> inlined_as(d, module@,
            next_count(old(context).inline_counter@, (module@, (*d.ident)@->Ident_0)), old(context).flags, j)),
        *fc is Import && import_declared(*old(context), fc->Import_0, |d: FuncDecl| inline_ready(*old(context), d, module@))
            ==> (r matches Ok(j) && exists|i: int| #[trigger] map_first(old(context).modules.0@, fc->Import_0.module@, i)
            && exists|e: int| 0 <= e < old(context).modules.0@[i].1.0@.len()
            && (#[trigger] old(context).modules.0@[i].1.0@[e]).0@ == fc->Import_0.ident@
            && (old(context).modules.0@[i].1.0@[e].1 matches FuncContext::Func(o) && exists|d: FuncDecl| d.ident@ == o.ident@
            && views(d.params@) == views(o.params@) && #[trigger] inlined_as(d, module@,
            next_count(old(context).inline_counter@, (module@, (*d.ident)@->Ident_0)), old(context).flags, j))),
    decreases old(context).fuel(), 1nat, 6nat,
{
    match fc {
        FuncContext::Func(d) => inline_decl(context, d, module),
        FuncContext::Inline(i) => Ok(i.copy()),
        FuncContext::Import(imp) => {
            let ghost c0 = *context;
            let ghost ready = import_declared(c0, *imp, |d: FuncDecl| inline_ready(c0, d, module@));
            let mut cur_mod = imp.module.copy();
            let mut cur_ident = imp.ident.copy();
            let mut from = module.copy();
            let mut steps = count_functions(&context.modules);
            let ghost steps0 = steps;
            proof {
                if ready {
                    let i = choose|i: int| #[trigger] map_first(c0.modules.0@, imp.module@, i)
                        && declared_where(c0.modules.0@[i].1, imp.ident@, |d: FuncDecl| inline_ready(c0, d, module@));
                    lemma_functions_total(c0.modules.0@, i);
                    assert(c0.modules.0@[i].1.0@.len() > 0);
                }
            }
            loop
                invariant
                    *context == *old(context),
                    c0 == *old(context),
                    old(context).wf(),
                    *fc is Import,
                    *fc == FuncContext::Import(*imp),
                    ready == import_declared(c0, *imp, |d: FuncDecl| inline_ready(c0, d, module@)),
                    ready ==> steps == steps0 && steps0 >= 1,
                    steps <= steps0,
                    steps == steps0 ==> cur_mod@ == imp.module@ && cur_ident@ == imp.ident@ && from@ == module@,
                decreases steps,
            {
                if steps == 0 {
                    let mut es: Vec<Error> = Vec::new();
                    let mut history: Vec<String> = Vec::new();
                    history.push(cur_mod.to_string());
                    es.push(
                        Error::new_from_code(
                            None,
                            ErrorCode::CircularImport {
                                message: String::from_str("Import of a function loops through the modules"),
                                module: cur_mod.to_string(),
                                history,
                                origin: module.to_string(),
                            },
                        ),
                    );
                    return Err(es);
                }
                let c = match context.modules.get(&cur_mod) {
                    Some(mctx) => {
                        let ghost gi = choose|i: int| #[trigger] map_first(context.modules.0@, cur_mod@, i) && *mctx == context.modules.0@[i].1;
                        match mctx.get(&cur_ident) {
                            Some(c) => {
                                proof {
                                    if ready {
                                        let i = choose|i: int| #[trigger] map_first(c0.modules.0@, imp.module@, i)
                                            && declared_where(c0.modules.0@[i].1, imp.ident@, |d: FuncDecl| inline_ready(c0, d, module@));
                                        lemma_map_first_unique(c0.modules.0@, imp.module@, i, gi);
                                        lemma_declared_func(*mctx, cur_ident@, |d: FuncDecl| inline_ready(c0, d, module@), *c);
                                    }
                                }
                                c.copy()
                            },
                            None => {
                                proof {
                                    if ready {
                                        let i = choose|i: int| #[trigger] map_first(c0.modules.0@, imp.module@, i)
                                            && declared_where(c0.modules.0@[i].1, imp.ident@, |d: FuncDecl| inline_ready(c0, d, module@));
                                        lemma_map_first_unique(c0.modules.0@, imp.module@, i, gi);
                                        lemma_declared_key(*mctx, cur_ident@, |d: FuncDecl| inline_ready(c0, d, module@));
                                    }
                                }
                                return Err(could_not_find_function(None, &cur_mod, &cur_ident));
                            },
                        }
                    },
                    None => {
                        proof {
                            if ready {
                                let i = choose|i: int| #[trigger] map_first(c0.modules.0@, imp.module@, i)
                                    && declared_where(c0.modules.0@[i].1, imp.ident@, |d: FuncDecl| inline_ready(c0, d, module@));
                                assert(c0.modules.0@[i].0@ == cur_mod@);
                            }
                        }
                        return Err(could_not_find_module(None, &cur_mod));
                    },
                };
                match c {
                    FuncContext::Import(next) => {
                        proof {
                            if ready {
                                assert(false);
                            }
                        }
                        from = cur_mod;
                        cur_mod = next.module;
                        cur_ident = next.ident;
                        steps = steps - 1;
                    },
                    FuncContext::Func(d) => {
                        let res = inline_decl(context, &d, &from);
                        proof {
                            if ready {
                                assert(res is Ok);
                            }
                        }
                        return res;
                    },
                    FuncContext::Inline(i) => {
                        return Ok(i);
                    },
                }
            }
        },
    }
}

/// Some function occurs twice on the stack of functions being inlined.
pub open spec fn has_repeat(s: Seq<Frame>) -> bool {
    exists|a: int, b: int|
        0 <= a < b < s.len() && s[a].caller is Some && s[b].caller is Some && (#[trigger] s[a]).caller->Some_0@ == (
        #[trigger] s[b]).caller->Some_0@
}

/// Entering the function `q` repeats a function on the stack: one was already repeated,
/// or `q` is being inlined already.
pub open spec fn repeats_with(s: Seq<Frame>, q: (Seq<Seq<char>>, Seq<char>)) -> bool {
    has_repeat(s) || exists|a: int| 0 <= a < s.len() && (#[trigger] s[a]).caller is Some && s[a].caller->Some_0@ == q
}

/// A stack with a frame of `q` on top repeats a function exactly where `repeats_with` says.
proof fn lemma_repeat_push(s: Seq<Frame>, f: Frame)
    requires
        f.caller is Some,
    ensures
        has_repeat(s.push(f)) == repeats_with(s, f.caller->Some_0@),
{
    let t = s.push(f);
    if has_repeat(t) {
        let (a, b) = choose|a: int, b: int|
            0 <= a < b < t.len() && t[a].caller is Some && t[b].caller is Some && (#[trigger] t[a]).caller->Some_0@ == (
            #[trigger] t[b]).caller->Some_0@;
        if b < s.len() {
            assert(s[a] == t[a] && s[b] == t[b]);
        } else {
            assert(s[a] == t[a]);
        }
    }
    if repeats_with(s, f.caller->Some_0@) {
        if has_repeat(s) {
            let (a, b) = choose|a: int, b: int|
                0 <= a < b < s.len() && s[a].caller is Some && s[b].caller is Some && (#[trigger] s[a]).caller->Some_0@ == (
                #[trigger] s[b]).caller->Some_0@;
            assert(t[a] == s[a] && t[b] == s[b]);
        } else {
            let a = choose|a: int| 0 <= a < s.len() && (#[trigger] s[a]).caller is Some && s[a].caller->Some_0@ == f.caller->Some_0@;
            assert(t[a] == s[a] && t[s.len() as int] == f);
        }
    }
}

/// The number of functions known in the modules `s`.
pub open spec fn functions_total(s: Seq<(ModuleName, crate::modctx::ModuleContext)>) -> nat
    decreases s.len(),
{
    if s.len() == 0 {
        0
    } else {
        functions_total(s.drop_last()) + (s.last().1).0@.len()
    }
}


/// The stack, one entry per frame: the function, or the module outside functions.
fn stack_strings(stack: &Vec<Frame>) -> (r: Vec<String>)
    ensures
        r@.len() == stack@.len(),
{
    let mut r: Vec<String> = Vec::new();
    let mut i: usize = 0;
    while i < stack.len()
        invariant
            i <= stack@.len(),
            r@.len() == i,
        decreases stack.len() - i,
    {
        let s = match &stack[i].caller {
            Some(c) => c.to_string(),
            None => stack[i].module.to_string(),
        };
        r.push(s);
        i = i + 1;
    }
    r
}

fn same_caller(a: &Frame, b: &Frame) -> (r: bool)
    ensures
        r == (a.caller is Some && b.caller is Some && a.caller->Some_0@ == b.caller->Some_0@),
{
    match (&a.caller, &b.caller) {
        (Some(x), Some(y)) => x.equals(y),
        _ => false,
    }
}

/// An error for each function that occurs more than once on the stack (with its number
/// of occurrences), while inlining `func` of `module`.
fn recursion_errors(context: &CompileContext, lno: LineNo, module: &ModuleName, func: &String) -> (r: Vec<Error>)
    ensures
        r@.len() > 0 <==> has_repeat(context.stack@),
{
    let stack = context.get_stack();
    let mut errs: Vec<Error> = Vec::new();
    let mut i: usize = 0;
    while i < stack.len()
        invariant
            i <= stack@.len(),
            stack@ == context.stack@,
            errs@.len() > 0 <==> exists|a: int, b: int|
                0 <= a < i && a < b < stack@.len() && (#[trigger] stack@[a]).caller is Some && (#[trigger] stack@[b]).caller is Some
                    && stack@[a].caller->Some_0@ == stack@[b].caller->Some_0@,
        decreases stack.len() - i,
    {
        let mut first = true;
        let mut j: usize = 0;
        while j < i
            invariant
                j <= i,
                i < stack@.len(),
                first <==> forall|k: int| 0 <= k < j ==> !(stack@[k].caller is Some && stack@[i as int].caller is Some
                    && stack@[k].caller->Some_0@ == stack@[i as int].caller->Some_0@),
            decreases i - j,
        {
            if same_caller(&stack[j], &stack[i]) {
                first = false;
            }
            j = j + 1;
        }
        let mut count: usize = 1;
        let mut k: usize = i + 1;
        while k < stack.len()
            invariant
                i < k <= stack@.len(),
                1 <= count <= k - i,
                count > 1 <==> exists|m: int| i < m < k && stack@[i as int].caller is Some && (#[trigger] stack@[m]).caller is Some
                    && stack@[i as int].caller->Some_0@ == stack@[m].caller->Some_0@,
            decreases stack.len() - k,
        {
            if same_caller(&stack[i], &stack[k]) {
                count = count + 1;
            }
            k = k + 1;
        }
        let ghost before = errs@.len();
        if first && count > 1 {
            errs.push(
                Error::new_from_code(
                    Some(lno),
                    ErrorCode::FunctionRecursionDetected {
                        stack: stack_strings(stack),
                        module: module.to_string(),
                        func: func.clone(),
                        count: Some(count),
                    },
                ),
            );
        }
        proof {
            let ex_new = exists|a: int, b: int|
                0 <= a < i + 1 && a < b < stack@.len() && (#[trigger] stack@[a]).caller is Some && (#[trigger] stack@[b]).caller is Some
                    && stack@[a].caller->Some_0@ == stack@[b].caller->Some_0@;
            if errs@.len() > 0 {
                if before > 0 {
                } else {
                    let m = choose|m: int| i < m < stack@.len() && stack@[i as int].caller is Some && (#[trigger] stack@[m]).caller is Some
                        && stack@[i as int].caller->Some_0@ == stack@[m].caller->Some_0@;
                    assert(stack@[i as int].caller is Some && stack@[m].caller is Some);
                }
            }
            if ex_new {
                let (a, b) = choose|a: int, b: int|
                    0 <= a < i + 1 && a < b < stack@.len() && (#[trigger] stack@[a]).caller is Some && (#[trigger] stack@[b]).caller is Some
                        && stack@[a].caller->Some_0@ == stack@[b].caller->Some_0@;
                if a < i {
                    assert(before > 0);
                } else if !first {
                    let k2 = choose|k2: int| 0 <= k2 < i && (stack@[k2].caller is Some && stack@[i as int].caller is Some
                        && stack@[k2].caller->Some_0@ == stack@[i as int].caller->Some_0@);
                    assert(stack@[k2].caller is Some && stack@[i as int].caller is Some);
                    assert(before > 0);
                } else {
                    assert(stack@[b].caller is Some);
                    assert(count > 1);
                }
            }
        }
        i = i + 1;
    }
    errs
}

/// `i` is the declaration `d` of `module` inlined for the `k`-th time: the parameters and
/// the result variable renamed with `spec_prefix_ident` for that inlining, and the body
/// lowered, then renamed the same way.
pub open spec fn inlined_as(d: FuncDecl, module: Seq<Seq<char>>, k: nat, flags: CompileFlags, i: FuncInline) -> bool {
    let q = (module, (*d.ident)@->Ident_0);
    &&& i.lno == d.lno
    &&& i.ident@ == q.1
    &&& i.params@.len() == d.params@.len()
    &&& forall|j: int| 0 <= j < d.params@.len() ==> (#[trigger] i.params@[j])@ == spec_prefix_ident(q, k, d.params@[j]@->Ident_0)
    &&& i.ret@ == spec_prefix_ident(q, k, (*d.ret)@->Ident_0)
    &&& exists|body: SExpr| #[trigger] lowers_to(*d.terms, flags, body) && i.terms@ == renamed(body, q, k)
}

/// Inlines a declared function of `module`: enters it, refuses recursion, lowers its body
/// and renames its variables (parameters and returned variable too) for this inlining.
fn inline_decl(context: &mut CompileContext, decl: &FuncDecl, module: &ModuleName) -> (r: StdResult<FuncInline>)
    requires
        decl_wf(*decl),
        old(context).wf(),
    ensures
        inlined(r, old(context).flags),
        keeps(*old(context), *final(context)),
        old(context).fuel() > 0 && !repeats_with(old(context).stack@, (module@, (*decl.ident)@->Ident_0))
            && func_free(*decl.terms) && lower_ok(*decl.terms, old(context).flags) ==> (r matches Ok(i)
            && i.lno == decl.lno && i.ident@ == (*decl.ident)@->Ident_0 && i.params@.len() == decl.params@.len()),
        r matches Ok(i) ==> inlined_as(*decl, module@, next_count(old(context).inline_counter@, (module@, (*decl.ident)@->Ident_0)),
            old(context).flags, i),
        r is Ok ==> inline_count(final(context).inline_counter@, (module@, (*decl.ident)@->Ident_0))
            == next_count(old(context).inline_counter@, (module@, (*decl.ident)@->Ident_0)),
    decreases old(context).fuel(), 1nat, 5nat,
{
    let ghost flags = context.flags;
    let name = decl.get_ident();
    let params = decl.get_params();
    let ret = decl.get_ret();
    let (name, params, ret) = match (name, params, ret) {
        (Ok(n), Ok(p), Ok(r)) => (n, p, r),
        (n, p, r) => {
            let mut errs: Vec<Error> = Vec::new();
            if let Err(e) = n {
                let mut e = e;
                errs.append(&mut e);
            }
            if let Err(e) = p {
                let mut e = e;
                errs.append(&mut e);
            }
            if let Err(e) = r {
                let mut e = e;
                errs.append(&mut e);
            }
            return Err(errs);
        },
    };
    let qual = FuncQualName::from(module.copy(), FuncName::from(name.clone()));
    if !context.has_fuel() {
        let mut es: Vec<Error> = Vec::new();
        es.push(
            Error::new_from_code(
                Some(decl.lno),
                ErrorCode::FunctionRecursionDetected {
                    stack: stack_strings(context.get_stack()),
                    module: module.to_string(),
                    func: name,
                    count: None,
                },
            ),
        );
        return Err(es);
    }
    let ghost c0 = *context;
    let q2 = qual.copy();
    context.dive(q2, module.copy());
    proof {
        lemma_repeat_push(c0.stack@, context.stack@.last());
        assert(context.stack@ == c0.stack@.push(context.stack@.last()));
    }
    let errs = recursion_errors(context, decl.lno, module, &name);
    if errs.len() > 0 {
        context.rise();
        assert(context.stack@ =~= c0.stack@);
        return Err(errs);
    }
    let ghost qv = qual@;
    proof {
        assert(context.stack@.last().caller->Some_0@ == qv);
        assert(!on_stack(c0.stack@, qv)) by {
            if on_stack(c0.stack@, qv) {
                let a = choose|a: int| 0 <= a < c0.stack@.len() && (#[trigger] c0.stack@[a]).caller is Some && c0.stack@[a].caller->Some_0@ == qv;
                assert(repeats_with(c0.stack@, qv));
            }
        }
    }
    let ghost c_d = *context;
    let count = context.incr_inline(qual.copy());
    let ghost c_i = *context;
    proof {
        assert forall|g: (Seq<Seq<char>>, Seq<char>)| #[trigger] on_stack(c_i.stack@, g) implies on_stack(c0.stack@, g) || g == qv by {
            let a = choose|a: int| 0 <= a < c_i.stack@.len() && (#[trigger] c_i.stack@[a]).caller is Some && c_i.stack@[a].caller->Some_0@ == g;
            if a < c0.stack@.len() {
                assert(c_i.stack@[a] == c0.stack@[a]);
            }
        }
        assert forall|g: (Seq<Seq<char>>, Seq<char>)| #[trigger] on_stack(c0.stack@, g) implies on_stack(c_i.stack@, g) by {
            let a = choose|a: int| 0 <= a < c0.stack@.len() && (#[trigger] c0.stack@[a]).caller is Some && c0.stack@[a].caller->Some_0@ == g;
            assert(c_i.stack@[a] == c0.stack@[a]);
        }
        assert(on_stack(c_i.stack@, qv)) by {
            assert(c_i.stack@[c0.stack@.len() as int] == c_i.stack@.last());
        }
    }
    let lowered_terms = decl.terms.lower(context);
    let terms = match lowered_terms {
        Ok(t) => t,
        Err(e) => {
            context.rise();
            assert(context.stack@ =~= c0.stack@);
            return Err(e);
        },
    };
    let terms = terms.prefix(context, &qual, &count);
    proof {
        lemma_renamed(lowered_terms->Ok_0@, qual@, count as nat, flags);
    }
    let mut renamed_params: Vec<String> = Vec::new();
    let mut i: usize = 0;
    while i < params.len()
        invariant
            i <= params@.len(),
            renamed_params@.len() == i,
            forall|j: int| 0 <= j < i ==> (#[trigger] renamed_params@[j])@ == spec_prefix_ident(qual@, count as nat, params@[j]@),
        decreases params.len() - i,
    {
        renamed_params.push(prefix_ident(&qual, &count, &params[i]));
        i = i + 1;
    }
    let renamed_ret = prefix_ident(&qual, &count, &ret);
    context.rise();
    assert(context.stack@ =~= c0.stack@);
    Ok(FuncInline { lno: decl.lno, ident: name, params: renamed_params, ret: renamed_ret, terms })
}

} // verus!
