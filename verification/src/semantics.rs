use vstd::prelude::*;
use crate::eval::{SExec, SComp, Vars, spec_step, spec_renew, renew_seq, terms_step, loop_run, eval_binop, eval_comp,
    lookup, lemma_terms_step_frame, law_renew_forgets_step, law_finished_is_final};
use crate::expr::{SExpr, SControl, LineNo, runnable, spec_flatten, flatten_seq, flatten_node, flatten_pieces, unwrap_terms};
use crate::verbs::{OperatorVerb, ComparisonVerb};
use crate::context::private_name;
use crate::lower::{counted_while, zero_while, value_while, add_while, number_program, add_program, gt_program, gt_pre, gt_core,
    gt_temps, gt_xtemps, gt_xname, gt_yname, nz_program, nz_parts, nz_temps};
use crate::expr::Control;
use crate::hir::{Hir, Macro};
use crate::flags::{CompileFlags, LOOP};
use crate::lower::opt;
use crate::lowering::{call_program, arg_program, inlined_as};
use crate::lower::{has_ident, has_ident_seq, renamed, law_renamed_idents};
use crate::context::spec_prefix_ident;
use crate::hir::FuncDecl;
use crate::hir::FuncCall;
use crate::modctx::FuncInline;
use crate::names::str_views;
use crate::expr::views;
use crate::lowering::{lowers_to, hir_expr, assign_macro_program, is_order, order_test, flag_loop, if_program, eq_program,
    nz_if_program};
use crate::lower::{const_ident, sassign, slist, copy_program, zero_program, value_from_zero, value_program, mul_from_zero};
use crate::exec::{spec_new, lemma_new_is_renewed, side_of};
use crate::parser::{Simple, Stmt, Cond, Side, simple_of, parsed_as, cond_expr};

verus! {

broadcast use vstd::std_specs::vec::axiom_vec_index_decreases;

// ---------------------------------------------------------------------------
// Runs of the step machine

/// Started in `e` with the variables `v`, the program takes `n` steps that each report
/// something, and then a step that reports its end; the variables are then `w`.
pub open spec fn runs(e: SExec, v: Vars, n: nat, w: Vars) -> bool
    decreases n,
{
    let s = spec_step(e, v);
    if n == 0 {
        s.2 is None && v == w
    } else {
        s.2 is Some && runs(s.0, s.1, (n - 1) as nat, w)
    }
}

/// A run ends once: two runs from the same state and variables take the same number of
/// steps and end with the same variables.
pub proof fn law_run_unique(e: SExec, v: Vars, n1: nat, w1: Vars, n2: nat, w2: Vars)
    requires
        runs(e, v, n1, w1),
        runs(e, v, n2, w2),
    ensures
        n1 == n2,
        w1 == w2,
    decreases n1,
{
    let s = spec_step(e, v);
    if n1 > 0 && n2 > 0 {
        law_run_unique(s.0, s.1, (n1 - 1) as nat, w1, (n2 - 1) as nat, w2);
    }
}

/// The state after the step that reports the end, when that step comes after `n` steps.
pub open spec fn post(e: SExec, v: Vars, n: nat) -> SExec
    decreases n,
{
    let s = spec_step(e, v);
    if n == 0 {
        s.0
    } else {
        post(s.0, s.1, (n - 1) as nat)
    }
}

// ---------------------------------------------------------------------------
// What a program computes

/// The variables a program in its starting state ends with when started with `v`: an
/// assignment sets its variable; a list runs its statements in turn; a LOOP runs its body
/// as many times as its variable's value at the start; a WHILE runs its body while its
/// condition holds. `None` when a WHILE needs more than `fuel` runs of its body (at any
/// depth).
pub open spec fn outcome(e: SExec, v: Vars, fuel: nat) -> Option<Vars>
    decreases fuel, e, 0nat,
{
    match e {
        SExec::Assign { lhs, rhs, .. } => Some(v.insert(lhs, eval_binop(rhs, v))),
        SExec::Terms { terms, .. } => outcome_terms(terms, 0, v, fuel),
        SExec::While { comp, terms, .. } => outcome_while(comp, *terms, v, fuel),
        SExec::Loop { ident, terms, .. } => outcome_loop(*terms, lookup(v, ident), v, fuel),
    }
}

/// The statements from `p` on, run in turn.
pub open spec fn outcome_terms(ts: Seq<SExec>, p: nat, v: Vars, fuel: nat) -> Option<Vars>
    decreases fuel, ts, if p < ts.len() { (ts.len() - p) as nat } else { 0 },
{
    if p >= ts.len() {
        Some(v)
    } else {
        match outcome(ts[p as int], v, fuel) {
            Some(v1) => outcome_terms(ts, p + 1, v1, fuel),
            None => None,
        }
    }
}

/// The body run `k` times.
pub open spec fn outcome_loop(body: SExec, k: nat, v: Vars, fuel: nat) -> Option<Vars>
    decreases fuel, body, k,
{
    if k == 0 {
        Some(v)
    } else {
        match outcome(body, v, fuel) {
            Some(v1) => outcome_loop(body, (k - 1) as nat, v1, fuel),
            None => None,
        }
    }
}

/// The body run while the condition holds, at most `fuel` times.
pub open spec fn outcome_while(comp: SComp, body: SExec, v: Vars, fuel: nat) -> Option<Vars>
    decreases fuel, body, 1nat,
{
    if !eval_comp(comp, v) {
        Some(v)
    } else if fuel == 0 {
        None
    } else {
        match outcome(body, v, fuel) {
            Some(v1) => outcome_while(comp, body, v1, (fuel - 1) as nat),
            None => None,
        }
    }
}

/// What a core program computes from the variables `v` (see `outcome`).
pub open spec fn meaning(e: SExpr, v: Vars, fuel: nat) -> Option<Vars> {
    outcome(spec_new(e), v, fuel)
}

/// Whenever the program computes something from some variables, the step machine,
/// started there, reports its end after finitely many steps with exactly those variables.
pub open spec fn machine_agrees(e: SExec, fuel: nat) -> bool {
    forall|u: Vars| #[trigger] outcome(e, u, fuel) is Some ==> exists|n: nat| #[trigger] runs(e, u, n, outcome(e, u, fuel)->0)
}

// ---------------------------------------------------------------------------
// From computed results to runs

/// Two states whose next steps agree run alike.
proof fn lemma_same_step(a: SExec, b: SExec, v: Vars, m: nat, w: Vars)
    requires
        spec_step(a, v) == spec_step(b, v),
    ensures
        runs(a, v, m, w) == runs(b, v, m, w),
{
}

/// A list runs its statement at `p` to the end, then the rest of the list.
proof fn lemma_terms_child(ts: Seq<SExec>, p: nat, v: Vars, n: nat, w: Vars, m: nat, w2: Vars)
    requires
        p < ts.len(),
        runs(ts[p as int], v, n, w),
        runs(SExec::Terms { terms: ts.update(p as int, post(ts[p as int], v, n)), ptr: p + 1 }, w, m, w2),
    ensures
        runs(SExec::Terms { terms: ts, ptr: p }, v, n + m, w2),
    decreases n,
{
    let s = spec_step(ts[p as int], v);
    if n == 0 {
        lemma_terms_step_frame(ts, p as int, s.0, p + 1, v);
        law_finished_is_final(ts[p as int], v, v);
        assert(s.2 is None);
        assert(s.1 == v);
        let r = terms_step(ts, p + 1, v);
        assert(terms_step(ts, p, v) == (r.0.update(p as int, s.0), r.1, r.2, r.3));
        assert(spec_step(SExec::Terms { terms: ts, ptr: p }, v) == (SExec::Terms { terms: r.0.update(p as int, s.0), ptr: r.1 }, r.2, r.3));
        lemma_same_step(
            SExec::Terms { terms: ts, ptr: p },
            SExec::Terms { terms: ts.update(p as int, s.0), ptr: p + 1 },
            v,
            m,
            w2,
        );
    } else {
        let ts1 = ts.update(p as int, s.0);
        assert(s.2 is Some);
        assert(terms_step(ts, p, v) == (ts1, p, s.1, s.2));
        assert(spec_step(SExec::Terms { terms: ts, ptr: p }, v) == (SExec::Terms { terms: ts1, ptr: p }, s.1, s.2));
        assert(post(ts[p as int], v, n) == post(s.0, s.1, (n - 1) as nat));
        assert(runs(s.0, s.1, (n - 1) as nat, w));
        assert(ts1[p as int] == s.0);
        assert(ts1.update(p as int, post(ts[p as int], v, n)) =~= ts.update(p as int, post(ts[p as int], v, n)));
        lemma_terms_child(ts1, p, s.1, (n - 1) as nat, w, m, w2);
        assert((n - 1) as nat + m == (n + m - 1) as nat);
    }
}

/// Changing a statement before `p` does not change what the list computes from `p` on.
proof fn lemma_outcome_terms_frame(ts: Seq<SExec>, j: int, t: SExec, p: nat, v: Vars, fuel: nat)
    requires
        0 <= j < p,
        j < ts.len(),
    ensures
        outcome_terms(ts.update(j, t), p, v, fuel) == outcome_terms(ts, p, v, fuel),
    decreases if p < ts.len() { (ts.len() - p) as nat } else { 0 },
{
    if p < ts.len() {
        assert(ts.update(j, t)[p as int] == ts[p as int]);
        match outcome(ts[p as int], v, fuel) {
            Some(v1) => {
                lemma_outcome_terms_frame(ts, j, t, p + 1, v1, fuel);
            },
            None => {},
        }
    }
}

/// A list whose statements from `p` on each run as they compute, runs as it computes.
proof fn lemma_terms_runs(ts: Seq<SExec>, p: nat, v: Vars, fuel: nat)
    requires
        p <= ts.len(),
        outcome_terms(ts, p, v, fuel) is Some,
        forall|i: int| p <= i < ts.len() ==> machine_agrees(#[trigger] ts[i], fuel),
    ensures
        exists|n: nat| #[trigger] runs(SExec::Terms { terms: ts, ptr: p }, v, n, outcome_terms(ts, p, v, fuel)->0),
    decreases ts.len() - p,
{
    let w = outcome_terms(ts, p, v, fuel)->0;
    if p == ts.len() {
        assert(terms_step(ts, p, v) == (ts, p, v, None::<(usize, Seq<crate::eval::SChange>)>));
        assert(spec_step(SExec::Terms { terms: ts, ptr: p }, v).2 is None);
        assert(spec_step(SExec::Terms { terms: ts, ptr: p }, v).1 == v);
        assert(w == v);
        assert(runs(SExec::Terms { terms: ts, ptr: p }, v, 0, w));
    } else {
        let c = ts[p as int];
        assert(machine_agrees(c, fuel));
        let v1 = outcome(c, v, fuel)->0;
        let n1: nat = choose|n: nat| #[trigger] runs(c, v, n, v1);
        let ts2 = ts.update(p as int, post(c, v, n1));
        lemma_outcome_terms_frame(ts, p as int, post(c, v, n1), p + 1, v1, fuel);
        assert forall|i: int| p + 1 <= i < ts2.len() implies machine_agrees(#[trigger] ts2[i], fuel) by {
            assert(ts2[i] == ts[i]);
        }
        lemma_terms_runs(ts2, p + 1, v1, fuel);
        let st = SExec::Terms { terms: ts2, ptr: p + 1 };
        let n2: nat = choose|n: nat| #[trigger] runs(st, v1, n, w);
        lemma_terms_child(ts, p, v, n1, v1, n2, w);
    }
}

/// The state of a LOOP at iteration `c` of `k`.
pub open spec fn loop_state(lno: LineNo, ident: Seq<char>, t: SExec, c: nat, k: nat) -> SExec {
    SExec::Loop { lno, ident, terms: Box::new(t), init: true, cur: c, iters: k }
}

/// A LOOP runs its body to the end, then the next iteration.
proof fn lemma_loop_child(lno: LineNo, ident: Seq<char>, t: SExec, b: SExec, c: nat, k: nat, v: Vars, n: nat,
    w: Vars, m: nat, w2: Vars)
    requires
        c < k,
        runs(t, v, n, w),
        spec_renew(t) == b,
        runs(loop_state(lno, ident, b, c + 1, k), w, m, w2),
    ensures
        runs(loop_state(lno, ident, t, c, k), v, n + m, w2),
    decreases n,
{
    let s = spec_step(t, v);
    if n == 0 {
        law_finished_is_final(t, v, v);
        assert(spec_step(loop_state(lno, ident, t, c, k), v) == loop_run(lno, ident, t, c, k, v));
        assert(spec_step(loop_state(lno, ident, b, c + 1, k), v) == loop_run(lno, ident, b, c + 1, k, v));
        lemma_same_step(loop_state(lno, ident, t, c, k), loop_state(lno, ident, b, c + 1, k), v, m, w2);
    } else {
        law_renew_forgets_step(t, v);
        assert(spec_step(loop_state(lno, ident, t, c, k), v) == loop_run(lno, ident, t, c, k, v));
        lemma_loop_child(lno, ident, s.0, b, c, k, s.1, (n - 1) as nat, w, m, w2);
    }
}

/// A LOOP whose body runs as it computes, runs its remaining iterations as they compute.
proof fn lemma_loop_runs(lno: LineNo, ident: Seq<char>, b: SExec, c: nat, k: nat, v: Vars, fuel: nat)
    requires
        spec_renew(b) == b,
        machine_agrees(b, fuel),
        c <= k,
        outcome_loop(b, (k - c) as nat, v, fuel) is Some,
    ensures
        exists|n: nat| #[trigger] runs(loop_state(lno, ident, b, c, k), v, n, outcome_loop(b, (k - c) as nat, v, fuel)->0),
    decreases k - c,
{
    let w = outcome_loop(b, (k - c) as nat, v, fuel)->0;
    assert(spec_step(loop_state(lno, ident, b, c, k), v) == loop_run(lno, ident, b, c, k, v));
    if c == k {
        assert(runs(loop_state(lno, ident, b, c, k), v, 0, w));
    } else {
        let v1 = outcome(b, v, fuel)->0;
        assert(outcome(b, v, fuel) is Some);
        let n1: nat = choose|n: nat| #[trigger] runs(b, v, n, v1);
        assert(((k - c) as nat - 1) as nat == (k - (c + 1)) as nat);
        lemma_loop_runs(lno, ident, b, c + 1, k, v1, fuel);
        let n2: nat = choose|n: nat| #[trigger] runs(loop_state(lno, ident, b, c + 1, k), v1, n, w);
        lemma_loop_child(lno, ident, b, b, c, k, v, n1, v1, n2, w);
    }
}

/// The condition of a WHILE fails.
pub open spec fn halts(comp: SComp, v: Vars) -> bool {
    !eval_comp(comp, v)
}

/// The state of a WHILE whose condition was just checked.
pub open spec fn while_state(lno: LineNo, comp: SComp, t: SExec, exhausted: bool) -> SExec {
    SExec::While { lno, comp, terms: Box::new(t), check: false, exhausted }
}

/// A WHILE runs its body to the end, then checks its condition again.
proof fn lemma_while_child(lno: LineNo, comp: SComp, t: SExec, b: SExec, v: Vars, n: nat, w: Vars, m: nat, w2: Vars)
    requires
        runs(t, v, n, w),
        spec_renew(t) == b,
        runs(while_state(lno, comp, b, halts(comp, w)), w, m, w2),
    ensures
        runs(while_state(lno, comp, t, false), v, n + m + 1, w2),
    decreases n,
{
    let s = spec_step(t, v);
    if n == 0 {
        law_finished_is_final(t, v, v);
    } else {
        law_renew_forgets_step(t, v);
        lemma_while_child(lno, comp, s.0, b, s.1, (n - 1) as nat, w, m, w2);
    }
}

/// A WHILE whose body runs as it computes, runs as it computes.
proof fn lemma_while_runs(lno: LineNo, comp: SComp, b: SExec, v: Vars, fuel: nat)
    requires
        spec_renew(b) == b,
        forall|f: nat| f <= fuel ==> machine_agrees(b, f),
        outcome_while(comp, b, v, fuel) is Some,
    ensures
        exists|n: nat| #[trigger] runs(while_state(lno, comp, b, halts(comp, v)), v, n, outcome_while(comp, b, v, fuel)->0),
    decreases fuel,
{
    let w = outcome_while(comp, b, v, fuel)->0;
    if !eval_comp(comp, v) {
        assert(runs(while_state(lno, comp, b, true), v, 0, w));
    } else {
        assert(machine_agrees(b, fuel));
        let v1 = outcome(b, v, fuel)->0;
        assert(outcome(b, v, fuel) is Some);
        let n1: nat = choose|n: nat| #[trigger] runs(b, v, n, v1);
        lemma_while_runs(lno, comp, b, v1, (fuel - 1) as nat);
        let n2: nat = choose|n: nat| #[trigger] runs(while_state(lno, comp, b, halts(comp, v1)), v1, n, w);
        lemma_while_child(lno, comp, b, b, v, n1, v1, n2, w);
    }
}

/// Every starting state runs as it computes.
proof fn lemma_outcome_runs(e: SExec, fuel: nat)
    requires
        spec_renew(e) == e,
    ensures
        machine_agrees(e, fuel),
    decreases fuel, e,
{
    match e {
        SExec::Assign { lhs, rhs, lno, exhausted } => {
            assert forall|u: Vars| #[trigger] outcome(e, u, fuel) is Some implies exists|n: nat| #[trigger] runs(e, u, n, outcome(e, u, fuel)->0) by {
                let w = u.insert(lhs, eval_binop(rhs, u));
                assert(!exhausted);
                let s = spec_step(e, u);
                assert(runs(s.0, s.1, 0, w));
                assert(runs(e, u, 1, w));
                assert(outcome(e, u, fuel) == Some(w));
                assert(runs(e, u, 1, outcome(e, u, fuel)->0));
            }
        },
        SExec::Terms { terms, ptr } => {
            assert(terms == renew_seq(terms));
            assert forall|i: int| 0 <= i < terms.len() implies machine_agrees(#[trigger] terms[i], fuel) by {
                assert(renew_seq(terms)[i] == spec_renew(terms[i]));
                assert(decreases_to!(e => terms[i]));
                lemma_outcome_runs(terms[i], fuel);
            }
            assert forall|u: Vars| #[trigger] outcome(e, u, fuel) is Some implies exists|n: nat| #[trigger] runs(e, u, n, outcome(e, u, fuel)->0) by {
                lemma_terms_runs(terms, 0, u, fuel);
            }
        },
        SExec::While { lno, comp, terms, check, exhausted } => {
            let b = *terms;
            assert(spec_renew(b) == b);
            assert forall|f: nat| f <= fuel implies machine_agrees(b, f) by {
                assert(decreases_to!(e => b));
                lemma_outcome_runs(b, f);
            }
            assert forall|u: Vars| #[trigger] outcome(e, u, fuel) is Some implies exists|n: nat| #[trigger] runs(e, u, n, outcome(e, u, fuel)->0) by {
                lemma_while_runs(lno, comp, b, u, fuel);
                let w = outcome(e, u, fuel)->0;
                let n: nat = choose|n: nat| #[trigger] runs(while_state(lno, comp, b, halts(comp, u)), u, n, w);
                assert(runs(e, u, n + 1, w));
            }
        },
        SExec::Loop { lno, ident, terms, init, cur, iters } => {
            let b = *terms;
            assert(spec_renew(b) == b);
            assert(decreases_to!(e => b));
            lemma_outcome_runs(b, fuel);
            assert forall|u: Vars| #[trigger] outcome(e, u, fuel) is Some implies exists|n: nat| #[trigger] runs(e, u, n, outcome(e, u, fuel)->0) by {
                let k = lookup(u, ident);
                lemma_loop_runs(lno, ident, b, 0, k, u, fuel);
                let w = outcome(e, u, fuel)->0;
                let n: nat = choose|n: nat| #[trigger] runs(loop_state(lno, ident, b, 0, k), u, n, w);
                assert(runs(e, u, n + 1, w));
            }
        },
    }
}

/// A runnable program, run by the step machine from the variables `v`, reports its end
/// after finitely many steps with the variables that it computes, whenever it computes
/// some (its WHILE loops ending within `fuel` runs of their bodies).
pub proof fn law_machine_computes_meaning(e: SExpr, v: Vars, fuel: nat)
    requires
        runnable(e),
        meaning(e, v, fuel) is Some,
    ensures
        exists|n: nat| #[trigger] runs(spec_new(e), v, n, meaning(e, v, fuel)->0),
{
    lemma_new_is_renewed(e);
    lemma_outcome_runs(spec_new(e), fuel);
    assert(outcome(spec_new(e), v, fuel) is Some);
}

// ---------------------------------------------------------------------------
// What the assignment macros compute

/// The two valuations give every variable the same value (a variable without a value
/// counts as 0).
pub open spec fn agrees(w: Vars, u: Vars) -> bool {
    forall|k: Seq<char>| #[trigger] lookup(w, k) == lookup(u, k)
}

/// `a - b`, stopping at 0.
pub open spec fn sat_sub(a: nat, b: nat) -> nat {
    if a >= b { (a - b) as nat } else { 0 }
}

/// The body `x := x - 1`, run `k` times, lowers `x` by `k` (stopping at 0).
proof fn lemma_countdown(lno: LineNo, x: Seq<char>, k: nat, u: Vars, fuel: nat)
    ensures
        outcome_loop(spec_new(slist(seq![sassign(lno, x, x, OperatorVerb::Minus, 1)])), k, u, fuel) matches Some(w)
            && agrees(w, u.insert(x, sat_sub(lookup(u, x), k))),
    decreases k,
{
    let a = sassign(lno, x, x, OperatorVerb::Minus, 1);
    let body = spec_new(slist(seq![a]));
    assert(seq![a][0] == a);
    assert(body->Terms_terms =~= seq![spec_new(a)]);
    if k > 0 {
        let u1 = u.insert(x, sat_sub(lookup(u, x), 1));
        assert(outcome(spec_new(a), u, fuel) == Some(u1));
        assert(outcome_terms(seq![spec_new(a)], 1, u1, fuel) == Some(u1));
        assert(outcome(body, u, fuel) == Some(u1));
        lemma_countdown(lno, x, (k - 1) as nat, u1, fuel);
        let w = outcome_loop(body, (k - 1) as nat, u1, fuel)->0;
        assert(sat_sub(lookup(u1, x), (k - 1) as nat) == sat_sub(lookup(u, x), k));
        assert forall|key: Seq<char>| #[trigger] lookup(w, key) == lookup(u.insert(x, sat_sub(lookup(u, x), k)), key) by {
            assert(lookup(w, key) == lookup(u1.insert(x, sat_sub(lookup(u1, x), (k - 1) as nat)), key));
        }
    } else {
        assert forall|key: Seq<char>| #[trigger] lookup(u, key) == lookup(u.insert(x, sat_sub(lookup(u, x), k)), key) by {}
    }
}

/// `x := y`, compiled, gives `x` the value of `y` and changes nothing else.
pub proof fn law_copy_meaning(lno: LineNo, x: Seq<char>, y: Seq<char>, v: Vars, fuel: nat)
    ensures
        meaning(copy_program(lno, x, y), v, fuel) == Some(v.insert(x, lookup(v, y))),
{
    let a = sassign(lno, x, y, OperatorVerb::Plus, 0);
    assert(seq![a][0] == a);
    let e = spec_new(copy_program(lno, x, y));
    assert(e->Terms_terms =~= seq![spec_new(a)]);
    assert(outcome(spec_new(a), v, fuel) == Some(v.insert(x, lookup(v, y))));
    assert(outcome_terms(seq![spec_new(a)], 1, v.insert(x, lookup(v, y)), fuel) == Some(v.insert(x, lookup(v, y))));
}

/// `x := 0`, compiled with LOOP, gives `x` the value 0 and changes no other value.
pub proof fn law_zero_meaning(lno: LineNo, x: Seq<char>, v: Vars, fuel: nat)
    ensures
        meaning(zero_program(lno, x), v, fuel) matches Some(w) && agrees(w, v.insert(x, 0)),
{
    let a = sassign(lno, x, x, OperatorVerb::Minus, 1);
    let l = crate::lower::zero_loop(lno, x);
    assert(seq![l][0] == l);
    let e = spec_new(zero_program(lno, x));
    assert(e->Terms_terms =~= seq![spec_new(l)]);
    lemma_countdown(lno, x, lookup(v, x), v, fuel);
    let w = outcome_loop(spec_new(slist(seq![a])), lookup(v, x), v, fuel)->0;
    assert(outcome(spec_new(l), v, fuel) == Some(w));
    assert(outcome_terms(seq![spec_new(l)], 1, w, fuel) == Some(w));
    assert forall|key: Seq<char>| #[trigger] lookup(w, key) == lookup(v.insert(x, 0), key) by {
        assert(lookup(w, key) == lookup(v.insert(x, sat_sub(lookup(v, x), lookup(v, x))), key));
    }
}

/// The WHILE of `counted_while` for the body `x := x + 1` (`x := x - 1`), run from
/// variables where the counter `c` holds `n`, raises (lowers) `x` by `n` and leaves `c` at 0.
proof fn lemma_while_countdown(lno: LineNo, x: Seq<char>, verb: OperatorVerb, c: Seq<char>, n: nat, u: Vars, fuel: nat)
    requires
        verb != OperatorVerb::Multiply,
        x != c,
        lookup(u, c) == n,
        fuel >= n,
    ensures
        outcome_while(SComp { lhs: side_of(SExpr::Ident(c)), verb: ComparisonVerb::NotEqual, rhs: side_of(SExpr::Num(0)) },
            spec_new(slist(seq![slist(seq![sassign(lno, x, x, verb, 1)]), sassign(lno, c, c, OperatorVerb::Minus, 1)])),
            u, fuel) matches Some(w) && agrees(w, u.insert(x, stepped(verb, lookup(u, x), n)).insert(c, 0)),
    decreases n,
{
    let comp = SComp { lhs: side_of(SExpr::Ident(c)), verb: ComparisonVerb::NotEqual, rhs: side_of(SExpr::Num(0)) };
    let a = sassign(lno, x, x, verb, 1);
    let d = sassign(lno, c, c, OperatorVerb::Minus, 1);
    let inner = slist(seq![a]);
    let body_e = slist(seq![inner, d]);
    let body = spec_new(body_e);
    assert(seq![a][0] == a);
    assert(spec_new(inner)->Terms_terms =~= seq![spec_new(a)]);
    assert(body->Terms_terms =~= seq![spec_new(inner), spec_new(d)]);
    if n == 0 {
        assert(!eval_comp(comp, u));
        assert forall|key: Seq<char>| #[trigger] lookup(u, key) == lookup(u.insert(x, stepped(verb, lookup(u, x), n)).insert(c, 0), key) by {}
    } else {
        assert(eval_comp(comp, u));
        let u0 = u.insert(x, stepped(verb, lookup(u, x), 1));
        assert(outcome(spec_new(a), u, fuel) == Some(u0));
        assert(outcome_terms(seq![spec_new(a)], 1, u0, fuel) == Some(u0));
        assert(outcome(spec_new(inner), u, fuel) == Some(u0));
        let u1 = u0.insert(c, sat_sub(lookup(u0, c), 1));
        assert(outcome(spec_new(d), u0, fuel) == Some(u1));
        assert(outcome_terms(seq![spec_new(inner), spec_new(d)], 2, u1, fuel) == Some(u1));
        assert(outcome_terms(seq![spec_new(inner), spec_new(d)], 1, u0, fuel) == Some(u1));
        assert(outcome(body, u, fuel) == Some(u1));
        assert(lookup(u1, c) == (n - 1) as nat);
        lemma_while_countdown(lno, x, verb, c, (n - 1) as nat, u1, (fuel - 1) as nat);
        let w = outcome_while(comp, body, u1, (fuel - 1) as nat)->0;
        assert(outcome_while(comp, body, u, fuel) == Some(w));
        assert(stepped(verb, lookup(u1, x), (n - 1) as nat) == stepped(verb, lookup(u, x), n));
        assert forall|key: Seq<char>| #[trigger] lookup(w, key) == lookup(u.insert(x, stepped(verb, lookup(u, x), n)).insert(c, 0), key) by {
            assert(lookup(w, key) == lookup(u1.insert(x, stepped(verb, lookup(u1, x), (n - 1) as nat)).insert(c, 0), key));
        }
    }
}

/// `x := 0`, compiled with WHILE only, gives `x` the value 0, leaves its counter, the
/// `k`-th private variable, at 0 and changes no other value, given enough fuel.
pub proof fn law_zero_while_meaning(lno: LineNo, x: Seq<char>, k: nat, v: Vars, fuel: nat)
    requires
        x != private_name(k),
        fuel >= lookup(v, x),
    ensures
        meaning(zero_while(lno, x, k), v, fuel) matches Some(w) && agrees(w, v.insert(private_name(k), 0).insert(x, 0)),
{
    let c = private_name(k);
    let a = sassign(lno, x, x, OperatorVerb::Minus, 1);
    let cw = counted_while(lno, x, slist(seq![a]), c);
    law_flatten_keeps_meaning(slist(seq![cw]), v, fuel);
    let cp = copy_program(lno, c, x);
    law_copy_meaning(lno, c, x, v, fuel);
    let v1 = v.insert(c, lookup(v, x));
    let wh = SExpr::Control(SControl::While {
        lno,
        comp: Box::new(SExpr::Comparison { lhs: Box::new(SExpr::Ident(c)), verb: ComparisonVerb::NotEqual, rhs: Box::new(SExpr::Num(0)) }),
        terms: Box::new(slist(seq![slist(seq![a]), sassign(lno, c, c, OperatorVerb::Minus, 1)])),
    });
    assert(cw == slist(seq![cp, wh]));
    assert(spec_new(cw)->Terms_terms =~= seq![spec_new(cp), spec_new(wh)]);
    lemma_while_countdown(lno, x, OperatorVerb::Minus, c, lookup(v, x), v1, fuel);
    let w = outcome(spec_new(wh), v1, fuel)->0;
    assert(outcome_terms(seq![spec_new(cp), spec_new(wh)], 2, w, fuel) == Some(w));
    assert(outcome_terms(seq![spec_new(cp), spec_new(wh)], 1, v1, fuel) == Some(w));
    assert(outcome(spec_new(cw), v, fuel) == Some(w));
    assert(seq![cw][0] == cw);
    assert(spec_new(slist(seq![cw]))->Terms_terms =~= seq![spec_new(cw)]);
    assert(outcome_terms(seq![spec_new(cw)], 1, w, fuel) == Some(w));
    assert forall|key: Seq<char>| #[trigger] lookup(w, key) == lookup(v.insert(c, 0).insert(x, 0), key) by {
        assert(lookup(w, key) == lookup(v1.insert(x, stepped(OperatorVerb::Minus, lookup(v1, x), lookup(v, x))).insert(c, 0), key));
    }
}

/// `x := n`, compiled with WHILE only, gives `x` the value `n`, leaves its counter, the
/// `k`-th private variable, at 0 and changes no other value, given enough fuel.
pub proof fn law_value_while_meaning(lno: LineNo, x: Seq<char>, n: nat, k: nat, v: Vars, fuel: nat)
    requires
        x != private_name(k),
        fuel >= lookup(v, x),
    ensures
        meaning(value_while(lno, x, n, k), v, fuel) matches Some(w) && agrees(w, v.insert(private_name(k), 0).insert(x, n)),
{
    let z = zero_while(lno, x, k);
    let a = sassign(lno, x, x, OperatorVerb::Plus, n);
    law_flatten_keeps_meaning(slist(seq![z, a]), v, fuel);
    law_zero_while_meaning(lno, x, k, v, fuel);
    let w0 = meaning(z, v, fuel)->0;
    let w = w0.insert(x, lookup(w0, x) + n);
    assert(outcome(spec_new(a), w0, fuel) == Some(w));
    assert(spec_new(slist(seq![z, a]))->Terms_terms =~= seq![spec_new(z), spec_new(a)]);
    assert(outcome_terms(seq![spec_new(z), spec_new(a)], 2, w, fuel) == Some(w));
    assert(outcome_terms(seq![spec_new(z), spec_new(a)], 1, w0, fuel) == Some(w));
    assert(lookup(w0, x) == 0);
    assert forall|key: Seq<char>| #[trigger] lookup(w, key) == lookup(v.insert(private_name(k), 0).insert(x, n), key) by {
        if key != x {
            assert(lookup(w, key) == lookup(w0, key));
        }
    }
}

/// `x := y + z` (`x := y - z`), compiled with WHILE only, gives `x` the sum (the difference,
/// stopping at 0), leaves its counter, the `k`-th private variable, at 0 and changes no other
/// value, given enough fuel, where `x` is neither `z` nor the counter.
pub proof fn law_add_while_meaning(lno: LineNo, x: Seq<char>, y: Seq<char>, verb: OperatorVerb, z: Seq<char>, k: nat, v: Vars,
    fuel: nat)
    requires
        verb != OperatorVerb::Multiply,
        x != z,
        x != private_name(k),
        fuel >= lookup(v, z),
    ensures
        meaning(add_while(lno, x, y, verb, z, k), v, fuel) matches Some(w)
            && agrees(w, v.insert(x, stepped(verb, lookup(v, y), lookup(v, z))).insert(private_name(k), 0)),
{
    let c = private_name(k);
    let cp0 = copy_program(lno, x, y);
    let b = sassign(lno, x, x, verb, 1);
    let cw = counted_while(lno, z, slist(seq![b]), c);
    law_flatten_keeps_meaning(slist(seq![cp0, cw]), v, fuel);
    law_copy_meaning(lno, x, y, v, fuel);
    let v0 = v.insert(x, lookup(v, y));
    let cp = copy_program(lno, c, z);
    law_copy_meaning(lno, c, z, v0, fuel);
    let v1 = v0.insert(c, lookup(v0, z));
    assert(lookup(v0, z) == lookup(v, z));
    let wh = SExpr::Control(SControl::While {
        lno,
        comp: Box::new(SExpr::Comparison { lhs: Box::new(SExpr::Ident(c)), verb: ComparisonVerb::NotEqual, rhs: Box::new(SExpr::Num(0)) }),
        terms: Box::new(slist(seq![slist(seq![b]), sassign(lno, c, c, OperatorVerb::Minus, 1)])),
    });
    assert(cw == slist(seq![cp, wh]));
    assert(spec_new(cw)->Terms_terms =~= seq![spec_new(cp), spec_new(wh)]);
    lemma_while_countdown(lno, x, verb, c, lookup(v, z), v1, fuel);
    let w = outcome(spec_new(wh), v1, fuel)->0;
    assert(outcome_terms(seq![spec_new(cp), spec_new(wh)], 2, w, fuel) == Some(w));
    assert(outcome_terms(seq![spec_new(cp), spec_new(wh)], 1, v1, fuel) == Some(w));
    assert(outcome(spec_new(cw), v0, fuel) == Some(w));
    assert(spec_new(slist(seq![cp0, cw]))->Terms_terms =~= seq![spec_new(cp0), spec_new(cw)]);
    assert(outcome_terms(seq![spec_new(cp0), spec_new(cw)], 2, w, fuel) == Some(w));
    assert(outcome_terms(seq![spec_new(cp0), spec_new(cw)], 1, v0, fuel) == Some(w));
    assert(lookup(v1, x) == lookup(v, y));
    assert forall|key: Seq<char>| #[trigger] lookup(w, key)
        == lookup(v.insert(x, stepped(verb, lookup(v, y), lookup(v, z))).insert(c, 0), key) by {
        assert(lookup(w, key) == lookup(v1.insert(x, stepped(verb, lookup(v1, x), lookup(v, z))).insert(c, 0), key));
    }
}

/// `x := n`, compiled with the dedicated zero variable, gives `x` the value `n` and
/// changes nothing else, when that variable holds 0.
pub proof fn law_value_from_zero_meaning(lno: LineNo, x: Seq<char>, n: nat, v: Vars, fuel: nat)
    requires
        lookup(v, const_ident()) == 0,
    ensures
        meaning(value_from_zero(lno, x, n), v, fuel) == Some(v.insert(x, n)),
{
    let a = sassign(lno, x, const_ident(), OperatorVerb::Plus, n);
    assert(seq![a][0] == a);
    let e = spec_new(value_from_zero(lno, x, n));
    assert(e->Terms_terms =~= seq![spec_new(a)]);
    assert(outcome(spec_new(a), v, fuel) == Some(v.insert(x, n)));
    assert(outcome_terms(seq![spec_new(a)], 1, v.insert(x, n), fuel) == Some(v.insert(x, n)));
}

/// `x := n`, compiled with LOOP, gives `x` the value `n` and changes no other value.
pub proof fn law_value_meaning(lno: LineNo, x: Seq<char>, n: nat, v: Vars, fuel: nat)
    ensures
        meaning(value_program(lno, x, n), v, fuel) matches Some(w) && agrees(w, v.insert(x, n)),
{
    let d = sassign(lno, x, x, OperatorVerb::Minus, 1);
    let p = sassign(lno, x, x, OperatorVerb::Plus, n);
    let l = crate::lower::zero_loop(lno, x);
    let ts = seq![l, p];
    assert(ts[0] == l && ts[1] == p);
    let e = spec_new(value_program(lno, x, n));
    assert(e->Terms_terms =~= seq![spec_new(l), spec_new(p)]);
    let st = seq![spec_new(l), spec_new(p)];
    lemma_countdown(lno, x, lookup(v, x), v, fuel);
    let w = outcome_loop(spec_new(slist(seq![d])), lookup(v, x), v, fuel)->0;
    assert(outcome(spec_new(l), v, fuel) == Some(w));
    assert(lookup(w, x) == lookup(v.insert(x, sat_sub(lookup(v, x), lookup(v, x))), x));
    assert(lookup(w, x) == 0);
    let w2 = w.insert(x, n);
    assert(outcome(spec_new(p), w, fuel) == Some(w2));
    assert(outcome_terms(st, 2, w2, fuel) == Some(w2));
    assert(outcome_terms(st, 1, w, fuel) == Some(w2));
    assert(outcome_terms(st, 0, v, fuel) == Some(w2));
    assert forall|key: Seq<char>| #[trigger] lookup(w2, key) == lookup(v.insert(x, n), key) by {
        assert(lookup(w, key) == lookup(v.insert(x, sat_sub(lookup(v, x), lookup(v, x))), key));
    }
}

/// `a + k`, or `a - k` stopping at 0.
pub open spec fn stepped(verb: OperatorVerb, a: nat, k: nat) -> nat {
    if verb == OperatorVerb::Plus { a + k } else { sat_sub(a, k) }
}

/// The body `x := x + 1` (`x := x - 1`), run `k` times, raises (lowers) `x` by `k`.
proof fn lemma_step_iter(lno: LineNo, x: Seq<char>, verb: OperatorVerb, k: nat, u: Vars, fuel: nat)
    requires
        verb != OperatorVerb::Multiply,
    ensures
        outcome_loop(spec_new(slist(seq![sassign(lno, x, x, verb, 1)])), k, u, fuel) matches Some(w)
            && agrees(w, u.insert(x, stepped(verb, lookup(u, x), k))),
    decreases k,
{
    let a = sassign(lno, x, x, verb, 1);
    let body = spec_new(slist(seq![a]));
    assert(seq![a][0] == a);
    assert(body->Terms_terms =~= seq![spec_new(a)]);
    if k > 0 {
        let u1 = u.insert(x, stepped(verb, lookup(u, x), 1));
        assert(outcome(spec_new(a), u, fuel) == Some(u1));
        assert(outcome_terms(seq![spec_new(a)], 1, u1, fuel) == Some(u1));
        assert(outcome(body, u, fuel) == Some(u1));
        lemma_step_iter(lno, x, verb, (k - 1) as nat, u1, fuel);
        let w = outcome_loop(body, (k - 1) as nat, u1, fuel)->0;
        assert(stepped(verb, lookup(u1, x), (k - 1) as nat) == stepped(verb, lookup(u, x), k));
        assert forall|key: Seq<char>| #[trigger] lookup(w, key) == lookup(u.insert(x, stepped(verb, lookup(u, x), k)), key) by {
            assert(lookup(w, key) == lookup(u1.insert(x, stepped(verb, lookup(u1, x), (k - 1) as nat)), key));
        }
    } else {
        assert forall|key: Seq<char>| #[trigger] lookup(u, key) == lookup(u.insert(x, stepped(verb, lookup(u, x), k)), key) by {}
    }
}

/// `x := y + z` (`x := y - z`), compiled with LOOP, gives `x` the sum (the difference,
/// stopping at 0) of `y` and `z` and changes no other value, when `x` is not `z`.
pub proof fn law_add_meaning(lno: LineNo, x: Seq<char>, y: Seq<char>, verb: OperatorVerb, z: Seq<char>, v: Vars, fuel: nat)
    requires
        verb != OperatorVerb::Multiply,
        x != z,
    ensures
        meaning(crate::lower::add_program(lno, x, y, verb, z), v, fuel) matches Some(w)
            && agrees(w, v.insert(x, stepped(verb, lookup(v, y), lookup(v, z)))),
{
    let a = sassign(lno, x, y, OperatorVerb::Plus, 0);
    let sl = crate::lower::step_loop(lno, z, x, verb);
    let ts = seq![a, sl];
    assert(ts[0] == a && ts[1] == sl);
    let e = spec_new(crate::lower::add_program(lno, x, y, verb, z));
    let st = seq![spec_new(a), spec_new(sl)];
    assert(e->Terms_terms =~= st);
    let v1 = v.insert(x, lookup(v, y));
    assert(outcome(spec_new(a), v, fuel) == Some(v1));
    assert(lookup(v1, z) == lookup(v, z));
    lemma_step_iter(lno, x, verb, lookup(v, z), v1, fuel);
    let w = outcome_loop(spec_new(slist(seq![sassign(lno, x, x, verb, 1)])), lookup(v, z), v1, fuel)->0;
    assert(outcome(spec_new(sl), v1, fuel) == Some(w));
    assert(outcome_terms(st, 2, w, fuel) == Some(w));
    assert(outcome_terms(st, 1, v1, fuel) == Some(w));
    assert(outcome_terms(st, 0, v, fuel) == Some(w));
    assert forall|key: Seq<char>| #[trigger] lookup(w, key) == lookup(v.insert(x, stepped(verb, lookup(v, y), lookup(v, z))), key) by {
        assert(lookup(w, key) == lookup(v1.insert(x, stepped(verb, lookup(v1, x), lookup(v, z))), key));
    }
}

/// The compiled `x := x + z`, run `k` times, raises `x` by `k` times `z`, when `x` is not
/// `z`.
proof fn lemma_add_iter(lno: LineNo, x: Seq<char>, z: Seq<char>, k: nat, u: Vars, fuel: nat)
    requires
        x != z,
    ensures
        outcome_loop(spec_new(crate::lower::add_program(lno, x, x, OperatorVerb::Plus, z)), k, u, fuel) matches Some(w)
            && agrees(w, u.insert(x, lookup(u, x) + k * lookup(u, z))),
    decreases k,
{
    let b = spec_new(crate::lower::add_program(lno, x, x, OperatorVerb::Plus, z));
    if k > 0 {
        law_add_meaning(lno, x, x, OperatorVerb::Plus, z, u, fuel);
        let u1 = outcome(b, u, fuel)->0;
        let c = lookup(u, z);
        assert(lookup(u1, x) == lookup(u.insert(x, lookup(u, x) + c), x));
        assert(lookup(u1, z) == lookup(u.insert(x, lookup(u, x) + c), z));
        lemma_add_iter(lno, x, z, (k - 1) as nat, u1, fuel);
        let w = outcome_loop(b, (k - 1) as nat, u1, fuel)->0;
        assert(lookup(u, x) + c + ((k - 1) as nat) * c == lookup(u, x) + k * c) by (nonlinear_arith)
            requires k > 0;
        assert forall|key: Seq<char>| #[trigger] lookup(w, key) == lookup(u.insert(x, lookup(u, x) + k * c), key) by {
            assert(lookup(w, key) == lookup(u1.insert(x, lookup(u1, x) + ((k - 1) as nat) * lookup(u1, z)), key));
            assert(lookup(u1, key) == lookup(u.insert(x, lookup(u, x) + c), key));
        }
    } else {
        assert forall|key: Seq<char>| #[trigger] lookup(u, key) == lookup(u.insert(x, lookup(u, x) + k * lookup(u, z)), key) by {}
    }
}

/// `x := y * z`, compiled with LOOP, gives `x` the product of `y` and `z` and changes no
/// other value, when `x` is neither `y` nor `z`.
pub proof fn law_mul_meaning(lno: LineNo, x: Seq<char>, y: Seq<char>, z: Seq<char>, v: Vars, fuel: nat)
    requires
        x != y,
        x != z,
    ensures
        meaning(crate::lower::mul_program(lno, x, y, z), v, fuel) matches Some(w)
            && agrees(w, v.insert(x, lookup(v, y) * lookup(v, z))),
{
    let zl = crate::lower::zero_loop(lno, x);
    let ap = crate::lower::add_program(lno, x, x, OperatorVerb::Plus, z);
    let ml = SExpr::Control(SControl::Loop { lno, ident: Box::new(SExpr::Ident(y)), terms: Box::new(ap) });
    let ts = seq![zl, ml];
    assert(ts[0] == zl && ts[1] == ml);
    let e = spec_new(crate::lower::mul_program(lno, x, y, z));
    let st = seq![spec_new(zl), spec_new(ml)];
    assert(e->Terms_terms =~= st);
    // zeroing x
    let d = sassign(lno, x, x, OperatorVerb::Minus, 1);
    lemma_countdown(lno, x, lookup(v, x), v, fuel);
    let w0 = outcome_loop(spec_new(slist(seq![d])), lookup(v, x), v, fuel)->0;
    assert(outcome(spec_new(zl), v, fuel) == Some(w0));
    assert(lookup(w0, x) == lookup(v.insert(x, sat_sub(lookup(v, x), lookup(v, x))), x));
    assert(lookup(w0, y) == lookup(v.insert(x, sat_sub(lookup(v, x), lookup(v, x))), y));
    assert(lookup(w0, z) == lookup(v.insert(x, sat_sub(lookup(v, x), lookup(v, x))), z));
    // adding z, y times
    lemma_add_iter(lno, x, z, lookup(v, y), w0, fuel);
    let w = outcome_loop(spec_new(ap), lookup(v, y), w0, fuel)->0;
    assert(outcome(spec_new(ml), w0, fuel) == Some(w));
    assert(outcome_terms(st, 2, w, fuel) == Some(w));
    assert(outcome_terms(st, 1, w0, fuel) == Some(w));
    assert(outcome_terms(st, 0, v, fuel) == Some(w));
    assert forall|key: Seq<char>| #[trigger] lookup(w, key) == lookup(v.insert(x, lookup(v, y) * lookup(v, z)), key) by {
        assert(lookup(w, key) == lookup(w0.insert(x, lookup(w0, x) + lookup(v, y) * lookup(w0, z)), key));
        assert(lookup(w0, key) == lookup(v.insert(x, sat_sub(lookup(v, x), lookup(v, x))), key));
    }
}

/// `x := y * z`, compiled with LOOP and the dedicated zero variable, gives `x` the product
/// of `y` and `z` and changes no other value, when `x` is neither `y` nor `z` and that
/// variable holds 0.
pub proof fn law_mul_from_zero_meaning(lno: LineNo, x: Seq<char>, y: Seq<char>, z: Seq<char>, v: Vars, fuel: nat)
    requires
        x != y,
        x != z,
        lookup(v, const_ident()) == 0,
    ensures
        meaning(mul_from_zero(lno, x, y, z), v, fuel) matches Some(w)
            && agrees(w, v.insert(x, lookup(v, y) * lookup(v, z))),
{
    let a = sassign(lno, x, const_ident(), OperatorVerb::Plus, 0);
    let ap = crate::lower::add_program(lno, x, x, OperatorVerb::Plus, z);
    let ml = SExpr::Control(SControl::Loop { lno, ident: Box::new(SExpr::Ident(y)), terms: Box::new(ap) });
    let ts = seq![a, ml];
    assert(ts[0] == a && ts[1] == ml);
    let e = spec_new(mul_from_zero(lno, x, y, z));
    let st = seq![spec_new(a), spec_new(ml)];
    assert(e->Terms_terms =~= st);
    let w0 = v.insert(x, 0);
    assert(outcome(spec_new(a), v, fuel) == Some(w0));
    assert(lookup(w0, y) == lookup(v, y));
    assert(lookup(w0, z) == lookup(v, z));
    assert(lookup(w0, x) == 0);
    lemma_add_iter(lno, x, z, lookup(v, y), w0, fuel);
    let w = outcome_loop(spec_new(ap), lookup(v, y), w0, fuel)->0;
    assert(outcome(spec_new(ml), w0, fuel) == Some(w));
    assert(outcome_terms(st, 2, w, fuel) == Some(w));
    assert(outcome_terms(st, 1, w0, fuel) == Some(w));
    assert(outcome_terms(st, 0, v, fuel) == Some(w));
    assert forall|key: Seq<char>| #[trigger] lookup(w, key) == lookup(v.insert(x, lookup(v, y) * lookup(v, z)), key) by {
        assert(lookup(w, key) == lookup(w0.insert(x, lookup(w0, x) + lookup(v, y) * lookup(w0, z)), key));
    }
}

// ---------------------------------------------------------------------------
// Flattening keeps the meaning

/// The starting states of a list of statements.
pub open spec fn news(s: Seq<SExpr>) -> Seq<SExec> {
    Seq::new(s.len(), |i: int| spec_new(s[i]))
}

/// Running `a + b` from `p` within `a` runs the rest of `a`, then `b`.
proof fn lemma_outcome_concat(a: Seq<SExec>, b: Seq<SExec>, p: nat, v: Vars, fuel: nat)
    requires
        p <= a.len(),
    ensures
        outcome_terms(a + b, p, v, fuel) == (match outcome_terms(a, p, v, fuel) {
            Some(v1) => outcome_terms(b, 0, v1, fuel),
            None => None,
        }),
    decreases a.len() - p,
{
    if p == a.len() {
        lemma_outcome_shift(a, b, 0, v, fuel);
    } else {
        assert((a + b)[p as int] == a[p as int]);
        match outcome(a[p as int], v, fuel) {
            Some(v1) => {
                lemma_outcome_concat(a, b, p + 1, v1, fuel);
            },
            None => {},
        }
    }
}

/// Running `a + b` past `a` runs `b`.
proof fn lemma_outcome_shift(a: Seq<SExec>, b: Seq<SExec>, q: nat, v: Vars, fuel: nat)
    requires
        q <= b.len(),
    ensures
        outcome_terms(a + b, a.len() + q, v, fuel) == outcome_terms(b, q, v, fuel),
    decreases b.len() - q,
{
    if q < b.len() {
        assert((a + b)[(a.len() + q) as int] == b[q as int]);
        match outcome(b[q as int], v, fuel) {
            Some(v1) => {
                lemma_outcome_shift(a, b, q + 1, v1, fuel);
                assert(a.len() + q + 1 == a.len() + (q + 1));
            },
            None => {},
        }
    }
}

/// A list of one statement computes what the statement computes.
proof fn lemma_outcome_single(x: SExec, v: Vars, fuel: nat)
    ensures
        outcome_terms(seq![x], 0, v, fuel) == outcome(x, v, fuel),
{
    assert(seq![x][0] == x);
    match outcome(x, v, fuel) {
        Some(v1) => {
            assert(outcome_terms(seq![x], 1, v1, fuel) == Some(v1));
        },
        None => {},
    }
}

/// The starting states of `a + b`, and of a list with one more statement.
proof fn lemma_news(a: Seq<SExpr>, b: Seq<SExpr>)
    ensures
        news(a + b) =~= news(a) + news(b),
        a.len() > 0 ==> news(a) =~= news(a.drop_last()) + seq![spec_new(a.last())],
{
}

/// Loops whose bodies compute alike compute alike.
proof fn lemma_loop_congruent(b1: SExec, b2: SExec, k: nat, v: Vars, fuel: nat)
    requires
        forall|u: Vars| #[trigger] outcome(b1, u, fuel) == outcome(b2, u, fuel),
    ensures
        outcome_loop(b1, k, v, fuel) == outcome_loop(b2, k, v, fuel),
    decreases k,
{
    if k > 0 {
        assert(outcome(b1, v, fuel) == outcome(b2, v, fuel));
        match outcome(b1, v, fuel) {
            Some(v1) => {
                lemma_loop_congruent(b1, b2, (k - 1) as nat, v1, fuel);
            },
            None => {},
        }
    }
}

/// WHILE loops whose bodies compute alike compute alike.
proof fn lemma_while_congruent(comp: SComp, b1: SExec, b2: SExec, v: Vars, fuel: nat)
    requires
        forall|u: Vars, f: nat| f <= fuel ==> #[trigger] outcome(b1, u, f) == outcome(b2, u, f),
    ensures
        outcome_while(comp, b1, v, fuel) == outcome_while(comp, b2, v, fuel),
    decreases fuel,
{
    if eval_comp(comp, v) && fuel > 0 {
        assert(outcome(b1, v, fuel) == outcome(b2, v, fuel));
        match outcome(b1, v, fuel) {
            Some(v1) => {
                lemma_while_congruent(comp, b1, b2, v1, (fuel - 1) as nat);
            },
            None => {},
        }
    }
}

/// Flattening a program does not change what it computes.
proof fn lemma_flatten_outcome(e: SExpr, v: Vars, fuel: nat)
    ensures
        outcome(spec_new(spec_flatten(e)), v, fuel) == outcome(spec_new(e), v, fuel),
    decreases e, 0nat,
{
    match e {
        SExpr::Control(SControl::Terms(ts)) => {
            assert(spec_new(spec_flatten(e))->Terms_terms =~= news(flatten_seq(ts)));
            assert(spec_new(e)->Terms_terms =~= news(ts));
            lemma_flatten_seq_outcome(ts, v, fuel);
        },
        SExpr::Control(SControl::Loop { lno, ident, terms }) => {
            assert forall|u: Vars| #[trigger] outcome(spec_new(spec_flatten(*terms)), u, fuel) == outcome(spec_new(*terms), u, fuel) by {
                lemma_flatten_outcome(*terms, u, fuel);
            }
            match *ident {
                SExpr::Ident(x) => {
                    lemma_loop_congruent(spec_new(spec_flatten(*terms)), spec_new(*terms), lookup(v, x), v, fuel);
                },
                _ => {},
            }
        },
        SExpr::Control(SControl::While { lno, comp, terms }) => {
            assert forall|u: Vars, f: nat| f <= fuel implies #[trigger] outcome(spec_new(spec_flatten(*terms)), u, f) == outcome(spec_new(*terms), u, f) by {
                lemma_flatten_outcome(*terms, u, f);
            }
            match *comp {
                SExpr::Comparison { lhs: l, verb, rhs: r } => {
                    let c = SComp { lhs: crate::exec::side_of(*l), verb, rhs: crate::exec::side_of(*r) };
                    lemma_while_congruent(c, spec_new(spec_flatten(*terms)), spec_new(*terms), v, fuel);
                },
                _ => {},
            }
        },
        _ => {},
    }
}

/// Flattening a list does not change what it computes.
proof fn lemma_flatten_seq_outcome(ts: Seq<SExpr>, v: Vars, fuel: nat)
    ensures
        outcome_terms(news(flatten_seq(ts)), 0, v, fuel) == outcome_terms(news(ts), 0, v, fuel),
    decreases ts, 0nat,
{
    if ts.len() > 0 {
        let init = ts.drop_last();
        let last = ts.last();
        lemma_news(flatten_seq(init), flatten_node(last));
        lemma_news(ts, seq![]);
        lemma_outcome_concat(news(flatten_seq(init)), news(flatten_node(last)), 0, v, fuel);
        lemma_outcome_concat(news(init), seq![spec_new(last)], 0, v, fuel);
        lemma_flatten_seq_outcome(init, v, fuel);
        match outcome_terms(news(init), 0, v, fuel) {
            Some(v1) => {
                assert(decreases_to!(ts => ts[ts.len() - 1]));
                lemma_flatten_node_outcome(last, v1, fuel);
                lemma_outcome_single(spec_new(last), v1, fuel);
            },
            None => {},
        }
    }
}

/// The statements one statement is flattened into compute what it computes.
proof fn lemma_flatten_node_outcome(node: SExpr, v: Vars, fuel: nat)
    ensures
        outcome_terms(news(flatten_node(node)), 0, v, fuel) == outcome(spec_new(node), v, fuel),
    decreases node, 1nat,
{
    match node {
        SExpr::Control(SControl::Terms(t)) => {
            lemma_flatten_pieces_outcome(t, v, fuel);
            assert(spec_new(node)->Terms_terms =~= news(t));
        },
        _ => {
            assert(news(seq![spec_flatten(node)]) =~= seq![spec_new(spec_flatten(node))]);
            lemma_outcome_single(spec_new(spec_flatten(node)), v, fuel);
            lemma_flatten_outcome(node, v, fuel);
        },
    }
}

/// The pieces a nested list is flattened into compute what the list computes.
proof fn lemma_flatten_pieces_outcome(t: Seq<SExpr>, v: Vars, fuel: nat)
    ensures
        outcome_terms(news(flatten_pieces(t)), 0, v, fuel) == outcome_terms(news(t), 0, v, fuel),
    decreases t, 0nat,
{
    if t.len() > 0 {
        let init = t.drop_last();
        let last = t.last();
        let f = spec_flatten(last);
        lemma_news(flatten_pieces(init), unwrap_terms(f));
        lemma_news(t, seq![]);
        lemma_outcome_concat(news(flatten_pieces(init)), news(unwrap_terms(f)), 0, v, fuel);
        lemma_outcome_concat(news(init), seq![spec_new(last)], 0, v, fuel);
        lemma_flatten_pieces_outcome(init, v, fuel);
        match outcome_terms(news(init), 0, v, fuel) {
            Some(v1) => {
                assert(decreases_to!(t => t[t.len() - 1]));
                lemma_flatten_outcome(last, v1, fuel);
                lemma_outcome_single(spec_new(last), v1, fuel);
                match f {
                    SExpr::Control(SControl::Terms(u)) => {
                        assert(spec_new(f)->Terms_terms =~= news(u));
                    },
                    _ => {
                        assert(news(seq![f]) =~= seq![spec_new(f)]);
                        lemma_outcome_single(spec_new(f), v1, fuel);
                    },
                }
            },
            None => {},
        }
    }
}

/// Flattening a program does not change what it computes, from any variables.
pub proof fn law_flatten_keeps_meaning(e: SExpr, v: Vars, fuel: nat)
    ensures
        meaning(spec_flatten(e), v, fuel) == meaning(e, v, fuel),
{
    lemma_flatten_outcome(e, v, fuel);
}

/// A list of statements computes what its first part computes, then what the rest computes.
proof fn lemma_meaning_concat(a: Seq<SExpr>, b: Seq<SExpr>, v: Vars, fuel: nat)
    ensures
        meaning(slist(a + b), v, fuel) == (match meaning(slist(a), v, fuel) {
            Some(u) => meaning(slist(b), u, fuel),
            None => None,
        }),
{
    lemma_news(a, b);
    assert(spec_new(slist(a + b))->Terms_terms =~= news(a + b));
    assert(spec_new(slist(a))->Terms_terms =~= news(a));
    assert(spec_new(slist(b))->Terms_terms =~= news(b));
    lemma_outcome_concat(news(a), news(b), 0, v, fuel);
}

/// A list of one statement computes what the statement computes.
proof fn lemma_meaning_single(e: SExpr, v: Vars, fuel: nat)
    ensures
        meaning(slist(seq![e]), v, fuel) == meaning(e, v, fuel),
{
    assert(seq![e][0] == e);
    assert(spec_new(slist(seq![e]))->Terms_terms =~= seq![spec_new(e)]);
    lemma_outcome_single(spec_new(e), v, fuel);
}

/// `x := n`, compiled with LOOP, gives `x` the value `n` and changes no other value (with
/// the dedicated zero variable, when it holds 0).
pub proof fn law_number_meaning(lno: LineNo, x: Seq<char>, n: nat, flags: CompileFlags, v: Vars, fuel: nat)
    requires
        x != const_ident(),
        opt(flags) ==> lookup(v, const_ident()) == 0,
    ensures
        meaning(number_program(lno, x, n, flags), v, fuel) matches Some(w) && agrees(w, v.insert(x, n)),
{
    if n == 0 {
        if opt(flags) {
            law_copy_meaning(lno, x, const_ident(), v, fuel);
        } else {
            law_zero_meaning(lno, x, v, fuel);
        }
    } else {
        if opt(flags) {
            law_value_from_zero_meaning(lno, x, n, v, fuel);
        } else {
            law_value_meaning(lno, x, n, v, fuel);
        }
    }
}

/// A program from variables agreeing with others computes the same values.
proof fn lemma_meaning_agrees(e: SExpr, v: Vars, v2: Vars, fuel: nat)
    requires
        agrees(v, v2),
        meaning(e, v2, fuel) is Some,
    ensures
        meaning(e, v, fuel) matches Some(w) && agrees(w, meaning(e, v2, fuel)->0),
{
    lemma_agrees_symmetric(v, v2);
    lemma_outcome_agrees(spec_new(e), v2, v, fuel);
}

/// The variable is one of the private variables the compiler hands out.
pub open spec fn is_private(k: Seq<char>) -> bool {
    exists|n: nat| k == #[trigger] private_name(n)
}

/// The value of a side of a comparison: a variable's value or a number.
pub open spec fn side_val(e: SExpr, v: Vars) -> nat {
    match e {
        SExpr::Ident(s) => lookup(v, s),
        SExpr::Num(n) => n,
        _ => 0,
    }
}

/// `x > y` holds at `v` (`x >= y` when `ge`).
pub open spec fn gt_holds(ge: bool, x: SExpr, y: SExpr, v: Vars) -> bool {
    if ge { side_val(x, v) >= side_val(y, v) } else { side_val(x, v) > side_val(y, v) }
}

/// Different private variables have different names, and none is the zero variable.
proof fn lemma_private_names(a: nat, b: nat)
    ensures
        a != b ==> private_name(a) != private_name(b),
        private_name(a) != const_ident(),
{
    crate::parser::lemma_decimal_string(a);
    crate::parser::lemma_decimal_string(b);
    if a != b && private_name(a) == private_name(b) {
        reveal_strlit("_");
        assert(private_name(a).skip(1) =~= crate::uint::decimal_string(a));
        assert(private_name(b).skip(1) =~= crate::uint::decimal_string(b));
    }
    crate::lower::lemma_private_not_const(a);
}

/// The LOOP of the comparison: its body sets `t2 := 1`, `t3 := 0`; run `k` times it leaves
/// the variables as they are when `k` is 0, and sets `t2` to 1 and `t3` to 0 otherwise.
proof fn lemma_gt_loop(lno: LineNo, t2: Seq<char>, t3: Seq<char>, flags: CompileFlags, k: nat, u: Vars, fuel: nat)
    requires
        t2 != const_ident(),
        t3 != const_ident(),
        t2 != t3,
        opt(flags) ==> lookup(u, const_ident()) == 0,
    ensures
        outcome_loop(spec_new(slist(seq![number_program(lno, t2, 1, flags), number_program(lno, t3, 0, flags)])), k, u, fuel)
            matches Some(w) && (if k == 0 { w == u } else { agrees(w, u.insert(t2, 1).insert(t3, 0)) }),
    decreases k,
{
    let a = number_program(lno, t2, 1, flags);
    let b = number_program(lno, t3, 0, flags);
    let body = slist(seq![a, b]);
    if k > 0 {
        assert(seq![a, b] == seq![a] + seq![b]);
        lemma_meaning_concat(seq![a], seq![b], u, fuel);
        lemma_meaning_single(a, u, fuel);
        law_number_meaning(lno, t2, 1, flags, u, fuel);
        let u1 = meaning(a, u, fuel)->0;
        lemma_meaning_single(b, u1, fuel);
        assert(lookup(u1, const_ident()) == lookup(u.insert(t2, 1), const_ident()));
        law_number_meaning(lno, t3, 0, flags, u1, fuel);
        let u2 = meaning(b, u1, fuel)->0;
        assert(meaning(body, u, fuel) == Some(u2));
        assert(agrees(u2, u.insert(t2, 1).insert(t3, 0))) by {
            assert forall|key: Seq<char>| #[trigger] lookup(u2, key) == lookup(u.insert(t2, 1).insert(t3, 0), key) by {
                assert(lookup(u2, key) == lookup(u1.insert(t3, 0), key));
                if key != t3 {
                    assert(lookup(u1, key) == lookup(u.insert(t2, 1), key));
                }
            }
        }
        assert(lookup(u2, const_ident()) == lookup(u, const_ident()));
        lemma_gt_loop(lno, t2, t3, flags, (k - 1) as nat, u2, fuel);
        if k > 1 {
            let w = outcome_loop(spec_new(body), (k - 1) as nat, u2, fuel)->0;
            assert forall|key: Seq<char>| #[trigger] lookup(w, key) == lookup(u.insert(t2, 1).insert(t3, 0), key) by {
                assert(lookup(w, key) == lookup(u2.insert(t2, 1).insert(t3, 0), key));
                assert(lookup(u2, key) == lookup(u.insert(t2, 1).insert(t3, 0), key));
            }
        }
    }
}

/// The comparison proper: from `u` it sets `t1` to `xn - yn` (stopping at 0), `t2`, `t3`
/// to 1, 0 when `xn > yn` and to 0, 1 otherwise, and changes nothing else.
proof fn lemma_gt_core(lno: LineNo, xn: Seq<char>, yn: Seq<char>, k: nat, flags: CompileFlags, u: Vars, fuel: nat)
    requires
        xn != private_name(k) && xn != private_name(k + 1) && xn != private_name(k + 2),
        yn != private_name(k) && yn != private_name(k + 1) && yn != private_name(k + 2),
        opt(flags) ==> lookup(u, const_ident()) == 0,
    ensures
        meaning(slist(gt_core(lno, xn, yn, k, flags)), u, fuel) matches Some(w) && agrees(w,
            u.insert(private_name(k), sat_sub(lookup(u, xn), lookup(u, yn)))
            .insert(private_name(k + 1), if lookup(u, xn) > lookup(u, yn) { 1nat } else { 0nat })
            .insert(private_name(k + 2), if lookup(u, xn) > lookup(u, yn) { 0nat } else { 1nat })),
{
    let t1 = private_name(k);
    let t2 = private_name(k + 1);
    let t3 = private_name(k + 2);
    lemma_private_names(k, k + 1);
    lemma_private_names(k, k + 2);
    lemma_private_names(k + 1, k + 2);
    lemma_private_names(k + 2, k);
    let core = gt_core(lno, xn, yn, k, flags);
    let a = core[0];
    let z = core[1];
    let o = core[2];
    let l = core[3];
    let x = lookup(u, xn);
    let y = lookup(u, yn);
    let b = x > y;
    assert(core =~= seq![a] + (seq![z] + (seq![o] + seq![l])));
    lemma_meaning_concat(seq![a], seq![z] + (seq![o] + seq![l]), u, fuel);
    lemma_meaning_single(a, u, fuel);
    law_add_meaning(lno, t1, xn, OperatorVerb::Minus, yn, u, fuel);
    let u1 = meaning(a, u, fuel)->0;
    assert(lookup(u1, t1) == sat_sub(x, y));
    assert(lookup(u1, const_ident()) == lookup(u.insert(t1, sat_sub(x, y)), const_ident()));
    lemma_meaning_concat(seq![z], seq![o] + seq![l], u1, fuel);
    lemma_meaning_single(z, u1, fuel);
    law_number_meaning(lno, t2, 0, flags, u1, fuel);
    let u2 = meaning(z, u1, fuel)->0;
    assert(lookup(u2, const_ident()) == lookup(u1.insert(t2, 0), const_ident()));
    lemma_meaning_concat(seq![o], seq![l], u2, fuel);
    lemma_meaning_single(o, u2, fuel);
    law_number_meaning(lno, t3, 1, flags, u2, fuel);
    let u3 = meaning(o, u2, fuel)->0;
    assert(lookup(u3, const_ident()) == lookup(u2.insert(t3, 1), const_ident()));
    lemma_meaning_single(l, u3, fuel);
    assert(lookup(u3, t1) == sat_sub(x, y)) by {
        assert(lookup(u3, t1) == lookup(u2.insert(t3, 1), t1));
        assert(lookup(u2, t1) == lookup(u1.insert(t2, 0), t1));
    }
    lemma_gt_loop(lno, t2, t3, flags, sat_sub(x, y), u3, fuel);
    let body = slist(seq![number_program(lno, t2, 1, flags), number_program(lno, t3, 0, flags)]);
    assert(spec_new(l) == SExec::Loop { lno, ident: t1, terms: Box::new(spec_new(body)), init: false, cur: 0, iters: 0 });
    let w = outcome_loop(spec_new(body), sat_sub(x, y), u3, fuel)->0;
    assert(meaning(l, u3, fuel) == Some(w));
    let ideal = u.insert(t1, sat_sub(x, y)).insert(t2, if b { 1nat } else { 0nat }).insert(t3, if b { 0nat } else { 1nat });
    assert forall|key: Seq<char>| #[trigger] lookup(w, key) == lookup(ideal, key) by {
        assert(lookup(u3, key) == lookup(u2.insert(t3, 1), key));
        assert(lookup(u2, key) == lookup(u1.insert(t2, 0), key));
        assert(lookup(u1, key) == lookup(u.insert(t1, sat_sub(x, y)), key));
        if sat_sub(x, y) > 0 {
            assert(lookup(w, key) == lookup(u3.insert(t2, 1).insert(t3, 0), key));
        }
    }
}

/// The test `gt_test` compiles with LOOP computes the comparison: run from any variables,
/// it sets the returned pair of private variables to 1, 0 when `x > y` holds (`x >= y`
/// when `ge`) and to 0, 1 otherwise, and changes no variable but private ones (where the
/// sides are numbers or variables that are not private, and the zero variable, if used,
/// holds 0).
pub proof fn law_gt_test_meaning(lno: LineNo, ge: bool, x: SExpr, y: SExpr, c: nat, flags: CompileFlags, v: Vars, fuel: nat)
    requires
        x is Ident || x is Num,
        y is Ident || y is Num,
        x is Ident ==> !is_private(x->Ident_0),
        y is Ident ==> !is_private(y->Ident_0),
        opt(flags) ==> lookup(v, const_ident()) == 0,
    ensures
        meaning(gt_program(lno, ge, x, y, c, flags), v, fuel) matches Some(w)
            && lookup(w, private_name(c + gt_temps(ge, x, y) + 1)) == (if gt_holds(ge, x, y, v) { 1nat } else { 0nat })
            && lookup(w, private_name(c + gt_temps(ge, x, y) + 2)) == (if gt_holds(ge, x, y, v) { 0nat } else { 1nat })
            && (forall|key: Seq<char>| !is_private(key) ==> #[trigger] lookup(w, key) == lookup(v, key))
            && forall|n: nat| n < c ==> #[trigger] lookup(w, private_name(n)) == lookup(v, private_name(n)),
{
    let k = c + gt_temps(ge, x, y);
    let xn = gt_xname(ge, x, c);
    let yn = gt_yname(ge, x, y, c);
    let pre = gt_pre(lno, ge, x, y, c, flags);
    let core = gt_core(lno, xn, yn, k, flags);
    let g: nat = if ge { 1 } else { 0 };
    law_flatten_keeps_meaning(slist(pre + core), v, fuel);
    lemma_meaning_concat(pre, core, v, fuel);
    lemma_private_names(c, c + 1);
    lemma_private_names(c, k);
    lemma_private_names(c, k + 1);
    lemma_private_names(c, k + 2);
    lemma_private_names(c + 1, k);
    lemma_private_names(c + 1, k + 1);
    lemma_private_names(c + 1, k + 2);
    lemma_private_names(k, k + 1);
    lemma_private_names(k, k + 2);
    lemma_private_names(k + 1, k + 2);
    // the values compared
    let xv = side_val(x, v) + (if ge { 1nat } else { 0nat });
    let yv = side_val(y, v);
    // the first part of the pre statements
    let a: Seq<SExpr> = if ge && x is Ident {
        seq![sassign(lno, private_name(c), x->Ident_0, OperatorVerb::Plus, 1)]
    } else if x is Num {
        seq![number_program(lno, private_name(c), x->Num_0 + g, flags)]
    } else {
        seq![]
    };
    let bb: Seq<SExpr> = if y is Num {
        seq![number_program(lno, yn, y->Num_0, flags)]
    } else {
        seq![]
    };
    assert(pre == a + bb);
    lemma_meaning_concat(a, bb, v, fuel);
    // after `a`: the left value is in `xn`
    let va: Vars = if a.len() == 0 { v } else { v.insert(xn, xv) };
    assert(meaning(slist(a), v, fuel) matches Some(u) && agrees(u, va)) by {
        if a.len() == 0 {
            assert(spec_new(slist(a))->Terms_terms =~= Seq::<SExec>::empty());
            assert forall|key: Seq<char>| #[trigger] lookup(v, key) == lookup(va, key) by {}
        } else if ge && x is Ident {
            lemma_meaning_single(a[0], v, fuel);
            assert(a =~= seq![a[0]]);
            let u = v.insert(private_name(c), lookup(v, x->Ident_0) + 1);
            assert(outcome(spec_new(a[0]), v, fuel) == Some(u));
            assert forall|key: Seq<char>| #[trigger] lookup(u, key) == lookup(va, key) by {}
        } else {
            lemma_meaning_single(a[0], v, fuel);
            assert(a =~= seq![a[0]]);
            law_number_meaning(lno, private_name(c), x->Num_0 + g, flags, v, fuel);
        }
    }
    let u_a = meaning(slist(a), v, fuel)->0;
    assert(lookup(u_a, const_ident()) == lookup(va, const_ident()));
    // after `bb`: the right value is in `yn`
    let vb: Vars = if bb.len() == 0 { va } else { va.insert(yn, yv) };
    assert(meaning(slist(bb), u_a, fuel) matches Some(u) && agrees(u, vb)) by {
        if bb.len() == 0 {
            assert(spec_new(slist(bb))->Terms_terms =~= Seq::<SExec>::empty());
        } else {
            lemma_meaning_single(bb[0], u_a, fuel);
            assert(bb =~= seq![bb[0]]);
            law_number_meaning(lno, yn, y->Num_0, flags, u_a, fuel);
            let u = meaning(bb[0], u_a, fuel)->0;
            assert forall|key: Seq<char>| #[trigger] lookup(u, key) == lookup(vb, key) by {
                assert(lookup(u, key) == lookup(u_a.insert(yn, yv), key));
                assert(lookup(u_a, key) == lookup(va, key));
            }
        }
    }
    let u_b = meaning(slist(bb), u_a, fuel)->0;
    assert(meaning(slist(pre), v, fuel) == Some(u_b));
    // the compared values
    assert(lookup(u_b, xn) == xv) by {
        assert(lookup(u_b, xn) == lookup(vb, xn));
        if a.len() == 0 {
            assert(!ge && x is Ident);
            assert(!is_private(xn));
            if y is Num {
                assert(yn == private_name(c + gt_xtemps(ge, x)));
                assert(xn != yn);
            }
        }
    }
    assert(lookup(u_b, yn) == yv) by {
        assert(lookup(u_b, yn) == lookup(vb, yn));
        if bb.len() == 0 {
            assert(!is_private(yn));
            if a.len() > 0 {
                assert(xn == private_name(c));
                assert(xn != yn);
            }
        }
    }
    assert(lookup(u_b, const_ident()) == lookup(v, const_ident())) by {
        assert(lookup(u_b, const_ident()) == lookup(vb, const_ident()));
    }
    // the comparison proper
    assert(!(xn == private_name(k) || xn == private_name(k + 1) || xn == private_name(k + 2))) by {
        if a.len() == 0 {
            assert(!is_private(xn));
        }
    }
    assert(!(yn == private_name(k) || yn == private_name(k + 1) || yn == private_name(k + 2))) by {
        if bb.len() == 0 {
            assert(!is_private(yn));
        } else {
            assert(gt_xtemps(ge, x) <= 1);
        }
    }
    lemma_gt_core(lno, xn, yn, k, flags, u_b, fuel);
    let w = meaning(slist(core), u_b, fuel)->0;
    assert(gt_holds(ge, x, y, v) == (xv > yv));
    assert(meaning(gt_program(lno, ge, x, y, c, flags), v, fuel) == Some(w));
    let ideal = u_b.insert(private_name(k), sat_sub(xv, yv)).insert(private_name(k + 1), if xv > yv { 1nat } else { 0nat })
        .insert(private_name(k + 2), if xv > yv { 0nat } else { 1nat });
    assert(lookup(w, private_name(k + 1)) == lookup(ideal, private_name(k + 1)));
    assert(lookup(w, private_name(k + 2)) == lookup(ideal, private_name(k + 2)));
    assert(lookup(w, private_name(k + 1)) == (if gt_holds(ge, x, y, v) { 1nat } else { 0nat }));
    assert(lookup(w, private_name(k + 2)) == (if gt_holds(ge, x, y, v) { 0nat } else { 1nat }));
    assert forall|key: Seq<char>| !is_private(key) implies #[trigger] lookup(w, key) == lookup(v, key) by {
        assert(key != private_name(k) && key != private_name(k + 1) && key != private_name(k + 2));
        assert(lookup(w, key) == lookup(u_b, key));
        assert(lookup(u_b, key) == lookup(vb, key));
        if a.len() > 0 {
            assert(xn == private_name(c));
        }
        if bb.len() > 0 {
            assert(yn == private_name(c + gt_xtemps(ge, x)));
        }
    }
    assert forall|n: nat| n < c implies #[trigger] lookup(w, private_name(n)) == lookup(v, private_name(n)) by {
        let key = private_name(n);
        lemma_private_names(n, c);
        lemma_private_names(n, c + 1);
        lemma_private_names(n, k);
        lemma_private_names(n, k + 1);
        lemma_private_names(n, k + 2);
        assert(is_private(key));
        assert(key != private_name(k) && key != private_name(k + 1) && key != private_name(k + 2));
        assert(lookup(w, key) == lookup(u_b, key));
        assert(lookup(u_b, key) == lookup(vb, key));
        if a.len() > 0 {
            assert(xn == private_name(c));
        } else {
            assert(!is_private(xn));
        }
        if bb.len() > 0 {
            assert(yn == private_name(c + gt_xtemps(ge, x)));
            lemma_private_names(n, c + gt_xtemps(ge, x));
        } else {
            assert(!is_private(yn));
        }
    }
}

// ---------------------------------------------------------------------------
// IF over an order comparison

/// The state never assigns to the variable `t`.
pub open spec fn exec_leaves(e: SExec, t: Seq<char>) -> bool
    decreases e,
{
    match e {
        SExec::Assign { lhs, .. } => lhs != t,
        SExec::Terms { terms, .. } => forall|i: int| 0 <= i < terms.len() ==> exec_leaves(#[trigger] terms[i], t),
        SExec::While { terms, .. } => exec_leaves(*terms, t),
        SExec::Loop { terms, .. } => exec_leaves(*terms, t),
    }
}

/// The program never assigns to the variable `t`.
pub open spec fn leaves(e: SExpr, t: Seq<char>) -> bool
    decreases e,
{
    match e {
        SExpr::Assign { lhs, .. } => *lhs != SExpr::Ident(t),
        SExpr::Control(SControl::Terms(ts)) => forall|i: int| 0 <= i < ts.len() ==> leaves(#[trigger] ts[i], t),
        SExpr::Control(SControl::Loop { terms, .. }) => leaves(*terms, t),
        SExpr::Control(SControl::While { terms, .. }) => leaves(*terms, t),
        _ => true,
    }
}

proof fn lemma_new_leaves(e: SExpr, t: Seq<char>)
    requires
        leaves(e, t),
    ensures
        exec_leaves(spec_new(e), t),
    decreases e,
{
    match e {
        SExpr::Control(SControl::Terms(ts)) => {
            let n = spec_new(e)->Terms_terms;
            assert forall|i: int| 0 <= i < n.len() implies exec_leaves(#[trigger] n[i], t) by {
                lemma_new_leaves(ts[i], t);
            }
        },
        SExpr::Control(SControl::Loop { terms, .. }) => {
            lemma_new_leaves(*terms, t);
        },
        SExpr::Control(SControl::While { terms, .. }) => {
            lemma_new_leaves(*terms, t);
        },
        _ => {},
    }
}

proof fn lemma_outcome_leaves(e: SExec, t: Seq<char>, v: Vars, fuel: nat)
    requires
        exec_leaves(e, t),
    ensures
        outcome(e, v, fuel) matches Some(w) ==> lookup(w, t) == lookup(v, t),
    decreases fuel, e, 0nat,
{
    match e {
        SExec::Assign { .. } => {},
        SExec::Terms { terms, .. } => {
            lemma_terms_leaves(terms, 0, t, v, fuel);
        },
        SExec::While { comp, terms, .. } => {
            lemma_while_leaves(comp, *terms, t, v, fuel);
        },
        SExec::Loop { ident, terms, .. } => {
            lemma_loop_leaves(*terms, lookup(v, ident), t, v, fuel);
        },
    }
}

proof fn lemma_terms_leaves(ts: Seq<SExec>, p: nat, t: Seq<char>, v: Vars, fuel: nat)
    requires
        forall|i: int| 0 <= i < ts.len() ==> exec_leaves(#[trigger] ts[i], t),
    ensures
        outcome_terms(ts, p, v, fuel) matches Some(w) ==> lookup(w, t) == lookup(v, t),
    decreases fuel, ts, if p < ts.len() { (ts.len() - p) as nat } else { 0 },
{
    if p < ts.len() {
        lemma_outcome_leaves(ts[p as int], t, v, fuel);
        if let Some(v1) = outcome(ts[p as int], v, fuel) {
            lemma_terms_leaves(ts, p + 1, t, v1, fuel);
        }
    }
}

proof fn lemma_loop_leaves(b: SExec, k: nat, t: Seq<char>, v: Vars, fuel: nat)
    requires
        exec_leaves(b, t),
    ensures
        outcome_loop(b, k, v, fuel) matches Some(w) ==> lookup(w, t) == lookup(v, t),
    decreases fuel, b, k,
{
    if k > 0 {
        lemma_outcome_leaves(b, t, v, fuel);
        if let Some(v1) = outcome(b, v, fuel) {
            lemma_loop_leaves(b, (k - 1) as nat, t, v1, fuel);
        }
    }
}

proof fn lemma_while_leaves(c: SComp, b: SExec, t: Seq<char>, v: Vars, fuel: nat)
    requires
        exec_leaves(b, t),
    ensures
        outcome_while(c, b, v, fuel) matches Some(w) ==> lookup(w, t) == lookup(v, t),
    decreases fuel, b, 1nat,
{
    if eval_comp(c, v) && fuel > 0 {
        lemma_outcome_leaves(b, t, v, fuel);
        if let Some(v1) = outcome(b, v, fuel) {
            lemma_while_leaves(c, b, t, v1, (fuel - 1) as nat);
        }
    }
}

/// `x verb y` holds at `v`, for an order comparison.
pub open spec fn order_holds(verb: ComparisonVerb, x: SExpr, y: SExpr, v: Vars) -> bool {
    match verb {
        ComparisonVerb::GreaterThan => side_val(x, v) > side_val(y, v),
        ComparisonVerb::GreaterThanEqual => side_val(x, v) >= side_val(y, v),
        ComparisonVerb::LessThan => side_val(x, v) < side_val(y, v),
        ComparisonVerb::LessThanEqual => side_val(x, v) <= side_val(y, v),
        _ => false,
    }
}

/// The two valuations give every variable but the private ones the same value.
pub open spec fn same_public(u: Vars, v: Vars) -> bool {
    forall|k: Seq<char>| !is_private(k) ==> #[trigger] lookup(u, k) == lookup(v, k)
}

/// A LOOP over a variable whose value is 1 runs its body once; over one whose value is 0,
/// not at all.
proof fn lemma_flag_loop(lno: LineNo, t: Seq<char>, b: SExpr, w: Vars, fuel: nat)
    requires
        lookup(w, t) <= 1,
    ensures
        meaning(flag_loop(lno, t, b), w, fuel) == (if lookup(w, t) == 1 { meaning(b, w, fuel) } else { Some(w) }),
{
    let n = spec_new(b);
    assert(spec_new(flag_loop(lno, t, b)) == SExec::Loop { lno, ident: t, terms: Box::new(n), init: false, cur: 0, iters: 0 });
    if lookup(w, t) == 1 {
        assert(outcome_loop(n, 1, w, fuel) == (match outcome(n, w, fuel) {
            Some(v1) => outcome_loop(n, 0, v1, fuel),
            None => None,
        }));
    }
}

/// `IF x verb y THEN .. ELSE .. END` over an order comparison (`>`, `>=`, `<`, `<=`) of
/// numbers and variables that are not private, compiled with its branches compiled to `bi`
/// and `be` (none without ELSE): started from `v`, it computes what `bi` computes when
/// `x verb y` holds at `v`, and otherwise what `be` computes (nothing without ELSE), each
/// from the same variables, which agree with `v` on every variable that is not private.
/// Those variables also keep the values of `v` in the private variables handed out before
/// the test. This holds where the THEN code assigns no private variable handed out before
/// it (as compiled code does not), and the zero variable, if used, holds 0.
pub proof fn law_if_meaning(lno: LineNo, verb: ComparisonVerb, x: SExpr, y: SExpr, c: nat, flags: CompileFlags, bi: SExpr,
    be: Option<SExpr>, v: Vars, fuel: nat)
    requires
        is_order(verb),
        x is Ident || x is Num,
        y is Ident || y is Num,
        x is Ident ==> !is_private(x->Ident_0),
        y is Ident ==> !is_private(y->Ident_0),
        opt(flags) ==> lookup(v, const_ident()) == 0,
        forall|n: nat| n < c + 5 ==> #[trigger] leaves(bi, private_name(n)),
    ensures
        exists|u: Vars| #[trigger] same_public(u, v) && (forall|n: nat| n < c ==> #[trigger] lookup(u, private_name(n)) == lookup(
            v,
            private_name(n),
        )) && meaning(if_program(lno, verb, x, y, c, flags, bi, be), v, fuel) == (if order_holds(
            verb,
            x,
            y,
            v,
        ) {
            meaning(bi, u, fuel)
        } else {
            match be {
                Some(b2) => meaning(b2, u, fuel),
                None => Some(u),
            }
        }),
{
    let (ge, a, b) = order_test(verb, x, y);
    let k = c + gt_temps(ge, a, b);
    let fi = private_name(k + 1);
    let fe = private_name(k + 2);
    let test = gt_program(lno, ge, a, b, c, flags);
    law_gt_test_meaning(lno, ge, a, b, c, flags, v, fuel);
    let w = meaning(test, v, fuel)->0;
    let h = order_holds(verb, x, y, v);
    assert(gt_holds(ge, a, b, v) == h);
    assert(lookup(w, fi) == (if h { 1nat } else { 0nat }));
    assert(lookup(w, fe) == (if h { 0nat } else { 1nat }));
    assert(same_public(w, v));
    let l1 = flag_loop(lno, fi, bi);
    lemma_flag_loop(lno, fi, bi, w, fuel);
    assert(gt_temps(ge, a, b) <= 2);
    assert(leaves(bi, fe));
    lemma_new_leaves(bi, fe);
    lemma_outcome_leaves(spec_new(bi), fe, w, fuel);
    let r1 = meaning(l1, w, fuel);
    assert(r1 matches Some(w1) ==> lookup(w1, fe) == lookup(w, fe));
    match be {
        Some(b2) => {
            let l2 = flag_loop(lno, fe, b2);
            assert(seq![test, l1, l2] =~= seq![test] + (seq![l1] + seq![l2]));
            lemma_meaning_concat(seq![test], seq![l1] + seq![l2], v, fuel);
            lemma_meaning_single(test, v, fuel);
            lemma_meaning_concat(seq![l1], seq![l2], w, fuel);
            lemma_meaning_single(l1, w, fuel);
            if let Some(w1) = r1 {
                lemma_meaning_single(l2, w1, fuel);
                lemma_flag_loop(lno, fe, b2, w1, fuel);
            }
        },
        None => {
            assert(seq![test, l1] =~= seq![test] + seq![l1]);
            lemma_meaning_concat(seq![test], seq![l1], v, fuel);
            lemma_meaning_single(test, v, fuel);
            lemma_meaning_single(l1, w, fuel);
        },
    }
    assert(same_public(w, v));
}

/// No private variable is the zero variable.
proof fn lemma_const_public()
    ensures
        !is_private(const_ident()),
{
    if is_private(const_ident()) {
        let n = choose|n: nat| const_ident() == #[trigger] private_name(n);
        lemma_private_names(n, n);
    }
}

/// `IF x == y THEN .. ELSE .. END` over numbers and variables that are not private,
/// compiled with the THEN branch compiled to `bi` and the ELSE branch to `be1` and `be2`
/// (it is compiled twice; none without ELSE): started from `v`, it computes what `bi`
/// computes when `x` and `y` have the same value at `v`, what `be1` computes when `x` is
/// greater and what `be2` computes when `x` is smaller (nothing without ELSE), each from
/// the same variables, which agree with `v` on every variable that is not private. This
/// holds where the THEN code and the first ELSE code assign no private variable handed
/// out before them (as compiled code does not), and the zero variable, if used, holds 0.
pub proof fn law_eq_meaning(lno: LineNo, x: SExpr, y: SExpr, c: nat, flags: CompileFlags, bi: SExpr, be1: Option<SExpr>,
    be2: Option<SExpr>, v: Vars, fuel: nat)
    requires
        x is Ident || x is Num,
        y is Ident || y is Num,
        x is Ident ==> !is_private(x->Ident_0),
        y is Ident ==> !is_private(y->Ident_0),
        opt(flags) ==> lookup(v, const_ident()) == 0,
        forall|n: nat| n < c + 16 ==> #[trigger] leaves(bi, private_name(n)),
        be1 is Some ==> forall|n: nat| n < c + 16 ==> #[trigger] leaves(be1->Some_0, private_name(n)),
    ensures
        exists|u: Vars| #[trigger] same_public(u, v) && meaning(eq_program(lno, x, y, c, flags, bi, be1, be2), v, fuel) == (if side_val(
            x,
            v,
        ) == side_val(y, v) {
            meaning(bi, u, fuel)
        } else if side_val(x, v) > side_val(y, v) {
            match be1 {
                Some(b1) => meaning(b1, u, fuel),
                None => Some(u),
            }
        } else {
            match be2 {
                Some(b2) => meaning(b2, u, fuel),
                None => Some(u),
            }
        }),
{
    let k = c + gt_temps(true, x, y);
    let c1 = k + 3;
    let fi = private_name(k + 1);
    let fe = private_name(k + 2);
    let test = gt_program(lno, true, x, y, c, flags);
    let inner = if_program(lno, ComparisonVerb::LessThanEqual, x, y, c1, flags, bi, be1);
    law_gt_test_meaning(lno, true, x, y, c, flags, v, fuel);
    let w = meaning(test, v, fuel)->0;
    let h = side_val(x, v) >= side_val(y, v);
    assert(lookup(w, fi) == (if h { 1nat } else { 0nat }));
    assert(lookup(w, fe) == (if h { 0nat } else { 1nat }));
    assert(same_public(w, v));
    lemma_const_public();
    assert(side_val(x, w) == side_val(x, v));
    assert(side_val(y, w) == side_val(y, v));
    let l1 = flag_loop(lno, fi, inner);
    lemma_flag_loop(lno, fi, inner, w, fuel);
    let r1 = meaning(l1, w, fuel);
    // the outcome of the inner IF, where it runs
    let target: Option<Vars> = if h {
        law_if_meaning(lno, ComparisonVerb::LessThanEqual, x, y, c1, flags, bi, be1, w, fuel);
        let u = choose|u: Vars| #[trigger] same_public(u, w) && (forall|n: nat| n < c1 ==> #[trigger] lookup(u, private_name(n))
            == lookup(w, private_name(n))) && meaning(inner, w, fuel) == (if order_holds(ComparisonVerb::LessThanEqual, x, y, w) {
            meaning(bi, u, fuel)
        } else {
            match be1 {
                Some(b1) => meaning(b1, u, fuel),
                None => Some(u),
            }
        });
        assert(lookup(u, fe) == lookup(w, fe));
        assert(same_public(u, v));
        assert(leaves(bi, fe));
        lemma_new_leaves(bi, fe);
        lemma_outcome_leaves(spec_new(bi), fe, u, fuel);
        if let Some(b1) = be1 {
            assert(leaves(b1, fe));
            lemma_new_leaves(b1, fe);
            lemma_outcome_leaves(spec_new(b1), fe, u, fuel);
        }
        assert(r1 matches Some(w1) ==> lookup(w1, fe) == 0);
        assert(r1 == (if side_val(x, v) == side_val(y, v) {
            meaning(bi, u, fuel)
        } else {
            match be1 {
                Some(b1) => meaning(b1, u, fuel),
                None => Some(u),
            }
        }));
        match be2 {
            Some(b2) => {
                let l2 = flag_loop(lno, fe, b2);
                if let Some(w1) = r1 {
                    lemma_meaning_single(l2, w1, fuel);
                    lemma_flag_loop(lno, fe, b2, w1, fuel);
                }
            },
            None => {},
        }
        r1
    } else {
        assert(r1 == Some(w));
        match be2 {
            Some(b2) => meaning(b2, w, fuel),
            None => Some(w),
        }
    };
    match be2 {
        Some(b2) => {
            let l2 = flag_loop(lno, fe, b2);
            assert(seq![test, l1, l2] =~= seq![test] + (seq![l1] + seq![l2]));
            lemma_meaning_concat(seq![test], seq![l1] + seq![l2], v, fuel);
            lemma_meaning_single(test, v, fuel);
            lemma_meaning_concat(seq![l1], seq![l2], w, fuel);
            lemma_meaning_single(l1, w, fuel);
            if let Some(w1) = r1 {
                lemma_meaning_single(l2, w1, fuel);
                lemma_flag_loop(lno, fe, b2, w1, fuel);
            }
        },
        None => {
            assert(seq![test, l1] =~= seq![test] + seq![l1]);
            lemma_meaning_concat(seq![test], seq![l1], v, fuel);
            lemma_meaning_single(test, v, fuel);
            lemma_meaning_single(l1, w, fuel);
        },
    }
    assert(meaning(eq_program(lno, x, y, c, flags, bi, be1, be2), v, fuel) == target);
}

/// The test `nz_test` compiles with LOOP computes `x != 0`: run from any variables, it sets
/// the returned pair of private variables to 1, 0 when `x` is not 0 and to 0, 1 otherwise,
/// and changes no variable that is not private, nor the private variables handed out before
/// it (where `x` is a number or a variable that is not private, and the zero variable, if
/// used, holds 0).
pub proof fn law_nz_test_meaning(lno: LineNo, x: SExpr, c: nat, flags: CompileFlags, v: Vars, fuel: nat)
    requires
        x is Ident || x is Num,
        x is Ident ==> !is_private(x->Ident_0),
        opt(flags) ==> lookup(v, const_ident()) == 0,
    ensures
        meaning(nz_program(lno, x, c, flags), v, fuel) matches Some(w)
            && lookup(w, private_name(c + nz_temps(x))) == (if side_val(x, v) != 0 { 1nat } else { 0nat })
            && lookup(w, private_name(c + nz_temps(x) + 1)) == (if side_val(x, v) != 0 { 0nat } else { 1nat })
            && (forall|key: Seq<char>| !is_private(key) ==> #[trigger] lookup(w, key) == lookup(v, key))
            && forall|n: nat| n < c ==> #[trigger] lookup(w, private_name(n)) == lookup(v, private_name(n)),
{
    let k = c + nz_temps(x);
    let t1 = private_name(k);
    let t2 = private_name(k + 1);
    let xn = if x is Num { private_name(c) } else { x->Ident_0 };
    let parts = nz_parts(lno, x, c, flags);
    lemma_private_names(c, k + 1);
    lemma_private_names(k, k + 1);
    lemma_private_names(k + 1, k);
    lemma_const_public();
    law_flatten_keeps_meaning(slist(parts), v, fuel);
    let pre: Seq<SExpr> = if x is Num { seq![number_program(lno, private_name(c), x->Num_0, flags)] } else { seq![] };
    let z = number_program(lno, t1, 0, flags);
    let o = number_program(lno, t2, 1, flags);
    let body = slist(seq![number_program(lno, t1, 1, flags), number_program(lno, t2, 0, flags)]);
    let l = SExpr::Control(SControl::Loop { lno, ident: Box::new(SExpr::Ident(xn)), terms: Box::new(body) });
    assert(parts =~= pre + (seq![z] + (seq![o] + seq![l])));
    lemma_meaning_concat(pre, seq![z] + (seq![o] + seq![l]), v, fuel);
    let xv = side_val(x, v);
    let va: Vars = if x is Num { v.insert(xn, xv) } else { v };
    assert(meaning(slist(pre), v, fuel) matches Some(u) && agrees(u, va)) by {
        if x is Num {
            assert(pre =~= seq![pre[0]]);
            lemma_meaning_single(pre[0], v, fuel);
            law_number_meaning(lno, xn, xv, flags, v, fuel);
        } else {
            assert(spec_new(slist(pre))->Terms_terms =~= Seq::<SExec>::empty());
            assert forall|key: Seq<char>| #[trigger] lookup(v, key) == lookup(va, key) by {}
        }
    }
    let u0 = meaning(slist(pre), v, fuel)->0;
    assert(lookup(u0, const_ident()) == lookup(v, const_ident())) by {
        assert(lookup(u0, const_ident()) == lookup(va, const_ident()));
    }
    lemma_meaning_concat(seq![z], seq![o] + seq![l], u0, fuel);
    lemma_meaning_single(z, u0, fuel);
    law_number_meaning(lno, t1, 0, flags, u0, fuel);
    let u1 = meaning(z, u0, fuel)->0;
    assert(lookup(u1, const_ident()) == lookup(u0.insert(t1, 0), const_ident()));
    lemma_meaning_concat(seq![o], seq![l], u1, fuel);
    lemma_meaning_single(o, u1, fuel);
    law_number_meaning(lno, t2, 1, flags, u1, fuel);
    let u2 = meaning(o, u1, fuel)->0;
    assert(lookup(u2, const_ident()) == lookup(u1.insert(t2, 1), const_ident()));
    lemma_meaning_single(l, u2, fuel);
    assert(xn != t1 && xn != t2) by {
        if x is Num {
            lemma_private_names(c, k);
        } else {
            assert(!is_private(xn));
        }
    }
    assert(lookup(u2, xn) == xv) by {
        assert(lookup(u2, xn) == lookup(u1.insert(t2, 1), xn));
        assert(lookup(u1, xn) == lookup(u0.insert(t1, 0), xn));
        assert(lookup(u0, xn) == lookup(va, xn));
    }
    lemma_gt_loop(lno, t1, t2, flags, xv, u2, fuel);
    assert(spec_new(l) == SExec::Loop { lno, ident: xn, terms: Box::new(spec_new(body)), init: false, cur: 0, iters: 0 });
    let w = outcome_loop(spec_new(body), xv, u2, fuel)->0;
    assert(meaning(l, u2, fuel) == Some(w));
    assert(meaning(nz_program(lno, x, c, flags), v, fuel) == Some(w));
    let ideal = va.insert(t1, if xv != 0 { 1nat } else { 0nat }).insert(t2, if xv != 0 { 0nat } else { 1nat });
    assert forall|key: Seq<char>| #[trigger] lookup(w, key) == lookup(ideal, key) by {
        assert(lookup(u2, key) == lookup(u1.insert(t2, 1), key));
        assert(lookup(u1, key) == lookup(u0.insert(t1, 0), key));
        assert(lookup(u0, key) == lookup(va, key));
        if xv > 0 {
            assert(lookup(w, key) == lookup(u2.insert(t1, 1).insert(t2, 0), key));
        }
    }
    assert(lookup(w, t1) == lookup(ideal, t1));
    assert(lookup(w, t2) == lookup(ideal, t2));
    assert forall|key: Seq<char>| !is_private(key) implies #[trigger] lookup(w, key) == lookup(v, key) by {
        assert(lookup(w, key) == lookup(ideal, key));
        assert(key != t1 && key != t2);
        if x is Num {
            assert(key != xn);
        }
    }
    assert forall|n: nat| n < c implies #[trigger] lookup(w, private_name(n)) == lookup(v, private_name(n)) by {
        let key = private_name(n);
        lemma_private_names(n, c);
        lemma_private_names(n, k);
        lemma_private_names(n, k + 1);
        assert(lookup(w, key) == lookup(ideal, key));
        if !(x is Num) {
            assert(!is_private(xn));
            assert(is_private(key));
        }
    }
}

/// `IF x != 0 THEN .. ELSE .. END` over a number or a variable that is not private,
/// compiled with its branches compiled to `bi` and `be` (none without ELSE): started from
/// `v`, it computes what `bi` computes when `x` is not 0 at `v`, and otherwise what `be`
/// computes (nothing without ELSE), each from the same variables, which agree with `v` on
/// every variable that is not private and on the private variables handed out before the
/// test. This holds where the THEN code assigns no private variable handed out before it
/// (as compiled code does not), and the zero variable, if used, holds 0.
pub proof fn law_nz_if_meaning(lno: LineNo, x: SExpr, c: nat, flags: CompileFlags, bi: SExpr, be: Option<SExpr>, v: Vars,
    fuel: nat)
    requires
        x is Ident || x is Num,
        x is Ident ==> !is_private(x->Ident_0),
        opt(flags) ==> lookup(v, const_ident()) == 0,
        forall|n: nat| n < c + 5 ==> #[trigger] leaves(bi, private_name(n)),
    ensures
        exists|u: Vars| #[trigger] same_public(u, v) && (forall|n: nat| n < c ==> #[trigger] lookup(u, private_name(n)) == lookup(
            v,
            private_name(n),
        )) && meaning(nz_if_program(lno, x, c, flags, bi, be), v, fuel) == (if side_val(x, v) != 0 {
            meaning(bi, u, fuel)
        } else {
            match be {
                Some(b2) => meaning(b2, u, fuel),
                None => Some(u),
            }
        }),
{
    let k = c + nz_temps(x);
    let fi = private_name(k);
    let fe = private_name(k + 1);
    let test = nz_program(lno, x, c, flags);
    law_nz_test_meaning(lno, x, c, flags, v, fuel);
    let w = meaning(test, v, fuel)->0;
    let h = side_val(x, v) != 0;
    assert(lookup(w, fi) == (if h { 1nat } else { 0nat }));
    assert(lookup(w, fe) == (if h { 0nat } else { 1nat }));
    assert(same_public(w, v));
    let l1 = flag_loop(lno, fi, bi);
    lemma_flag_loop(lno, fi, bi, w, fuel);
    assert(leaves(bi, fe));
    lemma_new_leaves(bi, fe);
    lemma_outcome_leaves(spec_new(bi), fe, w, fuel);
    let r1 = meaning(l1, w, fuel);
    assert(r1 matches Some(w1) ==> lookup(w1, fe) == lookup(w, fe));
    match be {
        Some(b2) => {
            let l2 = flag_loop(lno, fe, b2);
            assert(seq![test, l1, l2] =~= seq![test] + (seq![l1] + seq![l2]));
            lemma_meaning_concat(seq![test], seq![l1] + seq![l2], v, fuel);
            lemma_meaning_single(test, v, fuel);
            lemma_meaning_concat(seq![l1], seq![l2], w, fuel);
            lemma_meaning_single(l1, w, fuel);
            if let Some(w1) = r1 {
                lemma_meaning_single(l2, w1, fuel);
                lemma_flag_loop(lno, fe, b2, w1, fuel);
            }
        },
        None => {
            assert(seq![test, l1] =~= seq![test] + seq![l1]);
            lemma_meaning_concat(seq![test], seq![l1], v, fuel);
            lemma_meaning_single(test, v, fuel);
            lemma_meaning_single(l1, w, fuel);
        },
    }
    assert(same_public(w, v));
}

/// `IF x != y THEN .. ELSE .. END` (with `y` not the number 0), compiled as `x == y` with
/// the branches swapped, its ELSE branch (an empty list without ELSE) compiled to `bs` and
/// its THEN branch to `b1` and `b2`: started from `v`, it computes what the THEN code
/// computes when `x` and `y` differ at `v` (`b1` when `x` is greater, `b2` when it is
/// smaller), and what `bs` computes otherwise, each from the same variables, which agree
/// with `v` on every variable that is not private (under the conditions of
/// `law_eq_meaning`).
pub proof fn law_ne_meaning(lno: LineNo, x: SExpr, y: SExpr, c: nat, flags: CompileFlags, bs: SExpr, b1: SExpr, b2: SExpr,
    v: Vars, fuel: nat)
    requires
        x is Ident || x is Num,
        y is Ident || y is Num,
        x is Ident ==> !is_private(x->Ident_0),
        y is Ident ==> !is_private(y->Ident_0),
        opt(flags) ==> lookup(v, const_ident()) == 0,
        forall|n: nat| n < c + 16 ==> #[trigger] leaves(bs, private_name(n)),
        forall|n: nat| n < c + 16 ==> #[trigger] leaves(b1, private_name(n)),
    ensures
        exists|u: Vars| #[trigger] same_public(u, v) && meaning(eq_program(lno, x, y, c, flags, bs, Some(b1), Some(b2)), v, fuel)
            == (if side_val(x, v) != side_val(y, v) {
            if side_val(x, v) > side_val(y, v) {
                meaning(b1, u, fuel)
            } else {
                meaning(b2, u, fuel)
            }
        } else {
            meaning(bs, u, fuel)
        }),
{
    assert forall|n: nat| n < c + 16 implies #[trigger] leaves(Some(b1)->Some_0, private_name(n)) by {
        assert(leaves(b1, private_name(n)));
    }
    law_eq_meaning(lno, x, y, c, flags, bs, Some(b1), Some(b2), v, fuel);
}

// ---------------------------------------------------------------------------
// Inlined function calls

/// The variables `v` with the first `k` parameters `ps` set to the values at `v` of their
/// arguments `args` (numbers, or variables).
pub open spec fn bound(v: Vars, ps: Seq<Seq<char>>, args: Seq<SExpr>, k: nat) -> Vars
    decreases k,
{
    if k == 0 {
        v
    } else {
        bound(v, ps, args, (k - 1) as nat).insert(ps[k - 1], side_val(args[k - 1], v))
    }
}

proof fn lemma_bound_lookup(v: Vars, ps: Seq<Seq<char>>, args: Seq<SExpr>, k: nat, key: Seq<char>)
    requires
        k <= ps.len(),
        forall|i: int, j: int| 0 <= i < j < ps.len() ==> ps[i] != ps[j],
    ensures
        (forall|j: int| 0 <= j < k ==> ps[j] != key) ==> lookup(bound(v, ps, args, k), key) == lookup(v, key),
        forall|j: int| 0 <= j < k && ps[j] == key ==> lookup(bound(v, ps, args, k), key) == side_val(args[j], v),
    decreases k,
{
    if k > 0 {
        lemma_bound_lookup(v, ps, args, (k - 1) as nat, key);
    }
}

proof fn lemma_args_bound(lno: LineNo, ps: Seq<Seq<char>>, args: Seq<SExpr>, ts: Seq<SExpr>, flags: CompileFlags, v: Vars,
    fuel: nat, k: nat)
    requires
        k <= ps.len(),
        ps.len() == args.len(),
        ps.len() <= ts.len(),
        flags.spec_contains(LOOP),
        opt(flags) ==> lookup(v, const_ident()) == 0,
        forall|j: int| 0 <= j < ps.len() ==> arg_program(lno, ps[j], args[j], flags, #[trigger] ts[j]),
        forall|i: int, j: int| 0 <= i < j < ps.len() ==> ps[i] != ps[j],
        forall|i: int, j: int| 0 <= i < ps.len() && 0 <= j < args.len() && args[j] is Ident ==> ps[i] != args[j]->Ident_0,
        forall|j: int| 0 <= j < ps.len() ==> ps[j] != const_ident(),
    ensures
        meaning(slist(ts.take(k as int)), v, fuel) matches Some(u) && agrees(u, bound(v, ps, args, k)),
    decreases k,
{
    if k == 0 {
        assert(spec_new(slist(ts.take(0)))->Terms_terms =~= Seq::<SExec>::empty());
        assert forall|key: Seq<char>| #[trigger] lookup(v, key) == lookup(v, key) by {}
    } else {
        let j = (k - 1) as nat;
        lemma_args_bound(lno, ps, args, ts, flags, v, fuel, j);
        let u = meaning(slist(ts.take(j as int)), v, fuel)->0;
        let b = bound(v, ps, args, j);
        assert(ts.take(k as int) =~= ts.take(j as int) + seq![ts[j as int]]);
        lemma_meaning_concat(ts.take(j as int), seq![ts[j as int]], v, fuel);
        lemma_meaning_single(ts[j as int], u, fuel);
        let p = ps[j as int];
        let a = args[j as int];
        assert(arg_program(lno, p, a, flags, ts[j as int]));
        let val = side_val(a, v);
        match a {
            SExpr::Ident(y) => {
                let c = copy_program(lno, p, y);
                law_flatten_keeps_meaning(slist(seq![c]), u, fuel);
                lemma_meaning_single(c, u, fuel);
                law_copy_meaning(lno, p, y, u, fuel);
                lemma_bound_lookup(v, ps, args, j, y);
                assert(lookup(u, y) == lookup(b, y));
                assert(lookup(u, y) == val);
                let w = u.insert(p, val);
                assert forall|key: Seq<char>| #[trigger] lookup(w, key) == lookup(bound(v, ps, args, k), key) by {
                    assert(lookup(u, key) == lookup(b, key));
                }
            },
            SExpr::Num(n) => {
                let c = number_program(lno, p, n, flags);
                law_flatten_keeps_meaning(slist(seq![c]), u, fuel);
                lemma_meaning_single(c, u, fuel);
                lemma_bound_lookup(v, ps, args, j, const_ident());
                assert(lookup(u, const_ident()) == lookup(b, const_ident()));
                law_number_meaning(lno, p, n, flags, u, fuel);
                let w = meaning(c, u, fuel)->0;
                assert forall|key: Seq<char>| #[trigger] lookup(w, key) == lookup(bound(v, ps, args, k), key) by {
                    assert(lookup(w, key) == lookup(u.insert(p, n), key));
                    assert(lookup(u, key) == lookup(b, key));
                }
            },
            _ => {},
        }
    }
}

/// A compiled call `x := f(args)`, with LOOP, computes what the inlined body of `f`
/// computes from the caller's variables with each parameter set to the value of its
/// argument, then sets `x` to the body's result variable: the call computes something
/// exactly when the body does, and then every variable has the value it has after the
/// body, but `x`, which has the result. This holds where the parameters are distinct, none
/// is an argument variable or the zero variable, and the zero variable, if used, holds 0.
pub proof fn law_call_meaning(lno: LineNo, lhs: Seq<char>, rhs: FuncCall, f: FuncInline, flags: CompileFlags, e: SExpr, v: Vars,
    fuel: nat)
    requires
        call_program(lno, lhs, rhs, f, flags, e),
        flags.spec_contains(LOOP),
        opt(flags) ==> lookup(v, const_ident()) == 0,
        forall|i: int, j: int| 0 <= i < j < f.params@.len() ==> f.params@[i]@ != f.params@[j]@,
        forall|i: int, j: int| 0 <= i < f.params@.len() && 0 <= j < rhs.args@.len() && rhs.args@[j]@ is Ident
            ==> f.params@[i]@ != rhs.args@[j]@->Ident_0,
        forall|j: int| 0 <= j < f.params@.len() ==> f.params@[j]@ != const_ident(),
    ensures
        ({
            let b = bound(v, str_views(f.params@), views(rhs.args@), f.params@.len());
            &&& meaning(e, v, fuel) is Some <==> meaning(f.terms@, b, fuel) is Some
            &&& meaning(e, v, fuel) matches Some(w) ==> agrees(w, (meaning(f.terms@, b, fuel)->0).insert(lhs, lookup(
                meaning(f.terms@, b, fuel)->0,
                f.ret@,
            )))
        }),
{
    let ps = str_views(f.params@);
    let args = views(rhs.args@);
    let n = f.params@.len();
    let ts = e->Control_0->Terms_0;
    let last = ts[n + 1int];
    assert forall|j: int| 0 <= j < ps.len() implies arg_program(lno, ps[j], args[j], flags, #[trigger] ts[j]) by {
        assert(arg_program(lno, f.params@[j]@, rhs.args@[j]@, flags, ts[j]));
    }
    lemma_args_bound(lno, ps, args, ts, flags, v, fuel, n);
    let u = meaning(slist(ts.take(n as int)), v, fuel)->0;
    let b = bound(v, ps, args, n);
    let body = f.terms@;
    let rc = copy_program(lno, lhs, f.ret@);
    assert(ts =~= ts.take(n as int) + (seq![body] + seq![last]));
    lemma_meaning_concat(ts.take(n as int), seq![body] + seq![last], v, fuel);
    lemma_meaning_concat(seq![body], seq![last], u, fuel);
    lemma_meaning_single(body, u, fuel);
    lemma_agrees_symmetric(u, b);
    if meaning(body, b, fuel) is Some {
        lemma_meaning_agrees(body, u, b, fuel);
    }
    if meaning(body, u, fuel) is Some {
        lemma_meaning_agrees(body, b, u, fuel);
        let w1 = meaning(body, u, fuel)->0;
        let w = meaning(body, b, fuel)->0;
        lemma_meaning_single(last, w1, fuel);
        law_flatten_keeps_meaning(slist(seq![rc]), w1, fuel);
        lemma_meaning_single(rc, w1, fuel);
        law_copy_meaning(lno, lhs, f.ret@, w1, fuel);
        assert forall|key: Seq<char>| #[trigger] lookup(w1.insert(lhs, lookup(w1, f.ret@)), key) == lookup(w.insert(lhs, lookup(
            w,
            f.ret@,
        )), key) by {
            assert(lookup(w1, key) == lookup(w, key));
            assert(lookup(w1, f.ret@) == lookup(w, f.ret@));
        }
    }
}

proof fn lemma_unmentioned_leaves(e: SExpr, t: Seq<char>)
    requires
        !has_ident(e, t),
    ensures
        leaves(e, t),
    decreases e, 0nat,
{
    match e {
        SExpr::Control(SControl::Terms(ts)) => {
            assert forall|i: int| 0 <= i < ts.len() implies leaves(#[trigger] ts[i], t) by {
                lemma_unmentioned_seq(ts, t, i);
                lemma_unmentioned_leaves(ts[i], t);
            }
        },
        SExpr::Control(SControl::Loop { terms, .. }) => {
            lemma_unmentioned_leaves(*terms, t);
        },
        SExpr::Control(SControl::While { terms, .. }) => {
            lemma_unmentioned_leaves(*terms, t);
        },
        SExpr::Assign { lhs, .. } => {
            if *lhs == SExpr::Ident(t) {
                assert(has_ident(*lhs, t));
            }
        },
        _ => {},
    }
}

proof fn lemma_unmentioned_seq(ts: Seq<SExpr>, t: Seq<char>, i: int)
    requires
        !has_ident_seq(ts, t),
        0 <= i < ts.len(),
    ensures
        !has_ident(ts[i], t),
    decreases ts.len(),
{
    if i < ts.len() - 1 {
        assert(ts.drop_last()[i] == ts[i]);
        lemma_unmentioned_seq(ts.drop_last(), t, i);
    }
}

/// The body of a declared function inlined for the `k`-th time assigns only the inlined
/// names of that inlining: every other variable keeps its value through the body.
pub proof fn law_inlined_body_keeps(d: FuncDecl, module: Seq<Seq<char>>, k: nat, flags: CompileFlags, f: FuncInline,
    key: Seq<char>, u: Vars, fuel: nat)
    requires
        inlined_as(d, module, k, flags, f),
        forall|m: Seq<char>| key != #[trigger] spec_prefix_ident((module, (*d.ident)@->Ident_0), k, m),
    ensures
        meaning(f.terms@, u, fuel) matches Some(w) ==> lookup(w, key) == lookup(u, key),
{
    let q = (module, (*d.ident)@->Ident_0);
    let body = choose|body: SExpr| #[trigger] lowers_to(*d.terms, flags, body) && f.terms@ == renamed(body, q, k);
    law_renamed_idents(body, q, k, key);
    if has_ident(f.terms@, key) {
        let m = choose|m: Seq<char>| #[trigger] has_ident(body, m) && key == spec_prefix_ident(q, k, m);
        assert(key == spec_prefix_ident(q, k, m));
    }
    lemma_unmentioned_leaves(f.terms@, key);
    lemma_new_leaves(f.terms@, key);
    lemma_outcome_leaves(spec_new(f.terms@), key, u, fuel);
}

/// A compiled call `x := f(args)` of a declared function inlined for the `k`-th time
/// leaves the caller's other variables alone: every variable but `x` that is not an inlined
/// name of that inlining keeps its value (under the conditions of `law_call_meaning`).
pub proof fn law_call_keeps_caller(lno: LineNo, lhs: Seq<char>, rhs: FuncCall, d: FuncDecl, module: Seq<Seq<char>>, k: nat,
    f: FuncInline, flags: CompileFlags, e: SExpr, key: Seq<char>, v: Vars, fuel: nat)
    requires
        call_program(lno, lhs, rhs, f, flags, e),
        inlined_as(d, module, k, flags, f),
        flags.spec_contains(LOOP),
        opt(flags) ==> lookup(v, const_ident()) == 0,
        forall|i: int, j: int| 0 <= i < j < f.params@.len() ==> f.params@[i]@ != f.params@[j]@,
        forall|i: int, j: int| 0 <= i < f.params@.len() && 0 <= j < rhs.args@.len() && rhs.args@[j]@ is Ident
            ==> f.params@[i]@ != rhs.args@[j]@->Ident_0,
        forall|j: int| 0 <= j < f.params@.len() ==> f.params@[j]@ != const_ident(),
        key != lhs,
        forall|m: Seq<char>| key != #[trigger] spec_prefix_ident((module, (*d.ident)@->Ident_0), k, m),
    ensures
        meaning(e, v, fuel) matches Some(w) ==> lookup(w, key) == lookup(v, key),
{
    let ps = str_views(f.params@);
    let args = views(rhs.args@);
    let n = f.params@.len();
    let b = bound(v, ps, args, n);
    law_call_meaning(lno, lhs, rhs, f, flags, e, v, fuel);
    law_inlined_body_keeps(d, module, k, flags, f, key, b, fuel);
    assert forall|i: int, j: int| 0 <= i < j < ps.len() implies ps[i] != ps[j] by {
        assert(f.params@[i]@ != f.params@[j]@);
    }
    assert forall|j: int| 0 <= j < n implies ps[j] != key by {
        assert(f.params@[j]@ == spec_prefix_ident((module, (*d.ident)@->Ident_0), k, d.params@[j]@->Ident_0));
    }
    lemma_bound_lookup(v, ps, args, n, key);
}

// ---------------------------------------------------------------------------
// Equal values give equal results

/// From variables with the same values a program computes results with the same values.
proof fn lemma_outcome_agrees(e: SExec, v: Vars, v2: Vars, fuel: nat)
    requires
        agrees(v, v2),
        outcome(e, v, fuel) is Some,
    ensures
        outcome(e, v2, fuel) matches Some(w2) && agrees(w2, outcome(e, v, fuel)->0),
    decreases fuel, e, 0nat,
{
    match e {
        SExec::Assign { lhs, rhs, .. } => {
            assert(lookup(v, rhs.lhs) == lookup(v2, rhs.lhs));
            let a = eval_binop(rhs, v);
            assert forall|k: Seq<char>| #[trigger] lookup(v2.insert(lhs, a), k) == lookup(v.insert(lhs, a), k) by {
                assert(lookup(v2, k) == lookup(v, k));
            }
        },
        SExec::Terms { terms, .. } => {
            lemma_terms_agrees(terms, 0, v, v2, fuel);
        },
        SExec::While { comp, terms, .. } => {
            lemma_while_agrees(comp, *terms, v, v2, fuel);
        },
        SExec::Loop { ident, terms, .. } => {
            assert(lookup(v, ident) == lookup(v2, ident));
            lemma_loop_agrees(*terms, lookup(v, ident), v, v2, fuel);
        },
    }
}

proof fn lemma_terms_agrees(ts: Seq<SExec>, p: nat, v: Vars, v2: Vars, fuel: nat)
    requires
        agrees(v, v2),
        outcome_terms(ts, p, v, fuel) is Some,
    ensures
        outcome_terms(ts, p, v2, fuel) matches Some(w2) && agrees(w2, outcome_terms(ts, p, v, fuel)->0),
    decreases fuel, ts, if p < ts.len() { (ts.len() - p) as nat } else { 0 },
{
    if p < ts.len() {
        lemma_outcome_agrees(ts[p as int], v, v2, fuel);
        let v1 = outcome(ts[p as int], v, fuel)->0;
        let u1 = outcome(ts[p as int], v2, fuel)->0;
        assert forall|k: Seq<char>| #[trigger] lookup(v1, k) == lookup(u1, k) by {
            assert(lookup(u1, k) == lookup(v1, k));
        }
        lemma_terms_agrees(ts, p + 1, v1, u1, fuel);
    }
}

proof fn lemma_loop_agrees(b: SExec, k: nat, v: Vars, v2: Vars, fuel: nat)
    requires
        agrees(v, v2),
        outcome_loop(b, k, v, fuel) is Some,
    ensures
        outcome_loop(b, k, v2, fuel) matches Some(w2) && agrees(w2, outcome_loop(b, k, v, fuel)->0),
    decreases fuel, b, k,
{
    if k > 0 {
        lemma_outcome_agrees(b, v, v2, fuel);
        let v1 = outcome(b, v, fuel)->0;
        let u1 = outcome(b, v2, fuel)->0;
        assert forall|x: Seq<char>| #[trigger] lookup(v1, x) == lookup(u1, x) by {
            assert(lookup(u1, x) == lookup(v1, x));
        }
        lemma_loop_agrees(b, (k - 1) as nat, v1, u1, fuel);
    }
}

proof fn lemma_comp_agrees(c: SComp, v: Vars, v2: Vars)
    requires
        agrees(v, v2),
    ensures
        eval_comp(c, v) == eval_comp(c, v2),
{
    match c.lhs {
        crate::eval::SSide::Ident(k) => {
            assert(lookup(v, k) == lookup(v2, k));
        },
        _ => {},
    }
    match c.rhs {
        crate::eval::SSide::Ident(k) => {
            assert(lookup(v, k) == lookup(v2, k));
        },
        _ => {},
    }
}

proof fn lemma_while_agrees(c: SComp, b: SExec, v: Vars, v2: Vars, fuel: nat)
    requires
        agrees(v, v2),
        outcome_while(c, b, v, fuel) is Some,
    ensures
        outcome_while(c, b, v2, fuel) matches Some(w2) && agrees(w2, outcome_while(c, b, v, fuel)->0),
    decreases fuel, b, 1nat,
{
    lemma_comp_agrees(c, v, v2);
    if eval_comp(c, v) {
        lemma_outcome_agrees(b, v, v2, fuel);
        let v1 = outcome(b, v, fuel)->0;
        let u1 = outcome(b, v2, fuel)->0;
        assert forall|x: Seq<char>| #[trigger] lookup(v1, x) == lookup(u1, x) by {
            assert(lookup(u1, x) == lookup(v1, x));
        }
        lemma_while_agrees(c, b, v1, u1, (fuel - 1) as nat);
    }
}

// ---------------------------------------------------------------------------
// What a source program means

/// What the assignment macros mean: `x := y` copies `y`, `x := 0` and `x := n` set `x`,
/// `x := y + z`, `x := y - z` (stopping at 0) and `x := y * z` compute. The compiled
/// arithmetic reads `z` (and, for `*`, `y`) after writing `x`, so it is described only
/// where `x` is neither. (The other macros are not described here.)
pub open spec fn macro_meaning(m: Macro, v: Vars) -> Option<Vars> {
    match m {
        Macro::AssignToIdent { lhs, rhs, .. } => Some(v.insert((*lhs)@->Ident_0, lookup(v, (*rhs)@->Ident_0))),
        Macro::AssignToZero { lhs, .. } => Some(v.insert((*lhs)@->Ident_0, 0)),
        Macro::AssignToValue { lhs, rhs, .. } => Some(v.insert((*lhs)@->Ident_0, (*rhs)@->Num_0)),
        Macro::AssignToIdentBinOpIdent { lhs, rhs, .. } => {
            let x = (*lhs)@->Ident_0;
            let y = (*rhs.lhs)@->Ident_0;
            let z = (*rhs.rhs)@->Ident_0;
            if x == z || (rhs.verb == OperatorVerb::Multiply && x == y) {
                None
            } else if rhs.verb == OperatorVerb::Multiply {
                Some(v.insert(x, lookup(v, y) * lookup(v, z)))
            } else {
                Some(v.insert(x, stepped(rhs.verb, lookup(v, y), lookup(v, z))))
            }
        },
        _ => None,
    }
}

/// The model of a WHILE condition written as an expression.
pub open spec fn comp_of(c: SExpr) -> SComp {
    match c {
        SExpr::Comparison { lhs, verb, rhs } => SComp {
            lhs: crate::exec::side_of(*lhs),
            verb,
            rhs: crate::exec::side_of(*rhs),
        },
        _ => SComp { lhs: crate::eval::SSide::Num(0), verb: crate::verbs::ComparisonVerb::Equal, rhs: crate::eval::SSide::Num(0) },
    }
}

/// What a source program computes from the variables `v`, for programs of core
/// statements, lists, LOOPs, WHILEs and the assignment macros (`None` for other macros,
/// function calls, and WHILEs that need more than `fuel` runs of their bodies).
pub open spec fn hir_meaning(h: Hir, v: Vars, fuel: nat) -> Option<Vars>
    decreases fuel, h, 0nat,
{
    match h {
        Hir::Expr(x) => outcome(spec_new(x@), v, fuel),
        Hir::NoOp => Some(v),
        Hir::Macro(m) => macro_meaning(m, v),
        Hir::Function(_) => None,
        Hir::Control(Control::Terms(ts)) => hir_terms(ts, 0, v, fuel),
        Hir::Control(Control::Loop { ident, terms, .. }) => match hir_expr(*ident) {
            SExpr::Ident(x) => hir_loop(*terms, lookup(v, x), v, fuel),
            _ => None,
        },
        Hir::Control(Control::While { comp, terms, .. }) => if hir_expr(*comp) is Comparison {
            hir_while(comp_of(hir_expr(*comp)), *terms, v, fuel)
        } else {
            None
        },
    }
}

/// The statements from `p` on, run in turn.
pub open spec fn hir_terms(ts: Vec<Hir>, p: nat, v: Vars, fuel: nat) -> Option<Vars>
    decreases fuel, ts, if p < ts@.len() { (ts@.len() - p) as nat } else { 0 },
{
    if p >= ts@.len() {
        Some(v)
    } else {
        match hir_meaning(ts@[p as int], v, fuel) {
            Some(v1) => hir_terms(ts, p + 1, v1, fuel),
            None => None,
        }
    }
}

/// The body run `k` times.
pub open spec fn hir_loop(body: Hir, k: nat, v: Vars, fuel: nat) -> Option<Vars>
    decreases fuel, body, k,
{
    if k == 0 {
        Some(v)
    } else {
        match hir_meaning(body, v, fuel) {
            Some(v1) => hir_loop(body, (k - 1) as nat, v1, fuel),
            None => None,
        }
    }
}

/// The body run while the condition holds, at most `fuel` times.
pub open spec fn hir_while(comp: SComp, body: Hir, v: Vars, fuel: nat) -> Option<Vars>
    decreases fuel, body, 1nat,
{
    if !eval_comp(comp, v) {
        Some(v)
    } else if fuel == 0 {
        None
    } else {
        match hir_meaning(body, v, fuel) {
            Some(v1) => hir_while(comp, body, v1, (fuel - 1) as nat),
            None => None,
        }
    }
}

// ---------------------------------------------------------------------------
// The constant variable

/// No statement of the program assigns to the constant variable: its core statements are
/// assignments to other variables, and its assignment macros target other variables.
pub open spec fn keeps_zero(h: Hir) -> bool
    decreases h,
{
    match h {
        Hir::Expr(x) => x@ is Assign && *x@->Assign_lhs != SExpr::Ident(const_ident()),
        Hir::Macro(m) => match m {
            Macro::AssignToIdent { lhs, .. } => (*lhs)@->Ident_0 != const_ident(),
            Macro::AssignToZero { lhs, .. } => (*lhs)@->Ident_0 != const_ident(),
            Macro::AssignToValue { lhs, .. } => (*lhs)@->Ident_0 != const_ident(),
            Macro::AssignToIdentBinOpIdent { lhs, .. } => (*lhs)@->Ident_0 != const_ident(),
            Macro::AssignToIdentExtBinOpValue { lhs, .. } => (*lhs)@->Ident_0 != const_ident(),
            Macro::Conditional { .. } => true,
        },
        Hir::Control(Control::Terms(ts)) => forall|i: int| 0 <= i < ts@.len() ==> keeps_zero(#[trigger] ts@[i]),
        Hir::Control(Control::Loop { terms, .. }) => keeps_zero(*terms),
        Hir::Control(Control::While { terms, .. }) => keeps_zero(*terms),
        _ => true,
    }
}

/// A program that does not assign to the constant variable leaves it at 0.
proof fn lemma_hir_keeps_zero(h: Hir, v: Vars, fuel: nat)
    requires
        keeps_zero(h),
        lookup(v, const_ident()) == 0,
        hir_meaning(h, v, fuel) is Some,
    ensures
        lookup(hir_meaning(h, v, fuel)->0, const_ident()) == 0,
    decreases fuel, h, 0nat,
{
    match h {
        Hir::Control(Control::Terms(ts)) => {
            lemma_hir_terms_keeps_zero(ts, 0, v, fuel);
        },
        Hir::Control(Control::Loop { ident, terms, .. }) => {
            lemma_hir_loop_keeps_zero(*terms, lookup(v, hir_expr(*ident)->Ident_0), v, fuel);
        },
        Hir::Control(Control::While { comp, terms, .. }) => {
            lemma_hir_while_keeps_zero(comp_of(hir_expr(*comp)), *terms, v, fuel);
        },
        _ => {},
    }
}

proof fn lemma_hir_terms_keeps_zero(ts: Vec<Hir>, p: nat, v: Vars, fuel: nat)
    requires
        forall|i: int| 0 <= i < ts@.len() ==> keeps_zero(#[trigger] ts@[i]),
        lookup(v, const_ident()) == 0,
        hir_terms(ts, p, v, fuel) is Some,
    ensures
        lookup(hir_terms(ts, p, v, fuel)->0, const_ident()) == 0,
    decreases fuel, ts, if p < ts@.len() { (ts@.len() - p) as nat } else { 0 },
{
    if p < ts@.len() {
        assert(keeps_zero(ts@[p as int]));
        assert(decreases_to!(ts => ts@[p as int]));
        lemma_hir_keeps_zero(ts@[p as int], v, fuel);
        lemma_hir_terms_keeps_zero(ts, p + 1, hir_meaning(ts@[p as int], v, fuel)->0, fuel);
    }
}

proof fn lemma_hir_loop_keeps_zero(body: Hir, k: nat, v: Vars, fuel: nat)
    requires
        keeps_zero(body),
        lookup(v, const_ident()) == 0,
        hir_loop(body, k, v, fuel) is Some,
    ensures
        lookup(hir_loop(body, k, v, fuel)->0, const_ident()) == 0,
    decreases fuel, body, k,
{
    if k > 0 {
        lemma_hir_keeps_zero(body, v, fuel);
        lemma_hir_loop_keeps_zero(body, (k - 1) as nat, hir_meaning(body, v, fuel)->0, fuel);
    }
}

proof fn lemma_hir_while_keeps_zero(c: SComp, body: Hir, v: Vars, fuel: nat)
    requires
        keeps_zero(body),
        lookup(v, const_ident()) == 0,
        hir_while(c, body, v, fuel) is Some,
    ensures
        lookup(hir_while(c, body, v, fuel)->0, const_ident()) == 0,
    decreases fuel, body, 1nat,
{
    if eval_comp(c, v) {
        lemma_hir_keeps_zero(body, v, fuel);
        lemma_hir_while_keeps_zero(c, body, hir_meaning(body, v, fuel)->0, (fuel - 1) as nat);
    }
}

// ---------------------------------------------------------------------------
// Compiled programs compute what source programs mean

proof fn lemma_agrees_symmetric(v: Vars, v2: Vars)
    requires
        agrees(v, v2),
    ensures
        agrees(v2, v),
{
    assert forall|k: Seq<char>| #[trigger] lookup(v2, k) == lookup(v, k) by {
        assert(lookup(v, k) == lookup(v2, k));
    }
}

proof fn lemma_agrees_insert(v: Vars, v2: Vars, x: Seq<char>, a: nat)
    requires
        agrees(v, v2),
    ensures
        agrees(v.insert(x, a), v2.insert(x, a)),
{
    assert forall|k: Seq<char>| #[trigger] lookup(v.insert(x, a), k) == lookup(v2.insert(x, a), k) by {
        assert(lookup(v, k) == lookup(v2, k));
    }
}

proof fn lemma_agrees_trans(a: Vars, b: Vars, c: Vars)
    requires
        agrees(a, b),
        agrees(b, c),
    ensures
        agrees(a, c),
{
    assert forall|k: Seq<char>| #[trigger] lookup(a, k) == lookup(c, k) by {
        assert(lookup(a, k) == lookup(b, k));
        assert(lookup(b, k) == lookup(c, k));
    }
}

proof fn lemma_lowered_meaning(h: Hir, flags: CompileFlags, l: SExpr, v: Vars, v2: Vars, fuel: nat)
    requires
        flags.spec_contains(LOOP),
        opt(flags) ==> keeps_zero(h) && lookup(v, const_ident()) == 0,
        lowers_to(h, flags, l),
        agrees(v, v2),
        hir_meaning(h, v, fuel) is Some,
    ensures
        outcome(spec_new(l), v2, fuel) matches Some(w) && agrees(w, hir_meaning(h, v, fuel)->0),
    decreases fuel, h, 0nat,
{
    match h {
        Hir::Expr(x) => {
            lemma_outcome_agrees(spec_new(x@), v, v2, fuel);
        },
        Hir::NoOp => {
            assert(spec_new(l)->Terms_terms =~= Seq::<SExec>::empty());
            lemma_agrees_symmetric(v, v2);
        },
        Hir::Macro(m) => {
            match m {
                Macro::AssignToIdent { lno, lhs, rhs } => {
                    let x = (*lhs)@->Ident_0;
                    let y = (*rhs)@->Ident_0;
                    law_copy_meaning(lno, x, y, v2, fuel);
                    assert(lookup(v, y) == lookup(v2, y));
                    lemma_agrees_insert(v2, v, x, lookup(v, y));
                    lemma_agrees_symmetric(v, v2);
                },
                Macro::AssignToZero { lno, lhs } => {
                    let x = (*lhs)@->Ident_0;
                    lemma_agrees_symmetric(v, v2);
                    lemma_agrees_insert(v2, v, x, 0);
                    if opt(flags) {
                        assert(lookup(v, const_ident()) == lookup(v2, const_ident()));
                        law_copy_meaning(lno, x, const_ident(), v2, fuel);
                    } else {
                        law_zero_meaning(lno, x, v2, fuel);
                        let w = meaning(zero_program(lno, x), v2, fuel)->0;
                        lemma_agrees_trans(w, v2.insert(x, 0), v.insert(x, 0));
                    }
                },
                Macro::AssignToValue { lno, lhs, rhs } => {
                    let x = (*lhs)@->Ident_0;
                    let n = (*rhs)@->Num_0;
                    lemma_agrees_symmetric(v, v2);
                    lemma_agrees_insert(v2, v, x, n);
                    if opt(flags) {
                        assert(lookup(v, const_ident()) == lookup(v2, const_ident()));
                        law_value_from_zero_meaning(lno, x, n, v2, fuel);
                    } else {
                        law_value_meaning(lno, x, n, v2, fuel);
                        let w = meaning(value_program(lno, x, n), v2, fuel)->0;
                        lemma_agrees_trans(w, v2.insert(x, n), v.insert(x, n));
                    }
                },
                Macro::AssignToIdentBinOpIdent { lno, lhs, rhs } => {
                    let x = (*lhs)@->Ident_0;
                    let y = (*rhs.lhs)@->Ident_0;
                    let z = (*rhs.rhs)@->Ident_0;
                    assert(lookup(v, y) == lookup(v2, y));
                    assert(lookup(v, z) == lookup(v2, z));
                    lemma_agrees_symmetric(v, v2);
                    if rhs.verb == OperatorVerb::Multiply && opt(flags) {
                        assert(lookup(v, const_ident()) == lookup(v2, const_ident()));
                        law_mul_from_zero_meaning(lno, x, y, z, v2, fuel);
                        let a = lookup(v, y) * lookup(v, z);
                        lemma_agrees_insert(v2, v, x, a);
                        let w = meaning(mul_from_zero(lno, x, y, z), v2, fuel)->0;
                        lemma_agrees_trans(w, v2.insert(x, a), v.insert(x, a));
                    } else if rhs.verb == OperatorVerb::Multiply {
                        law_mul_meaning(lno, x, y, z, v2, fuel);
                        let a = lookup(v, y) * lookup(v, z);
                        lemma_agrees_insert(v2, v, x, a);
                        let w = meaning(crate::lower::mul_program(lno, x, y, z), v2, fuel)->0;
                        lemma_agrees_trans(w, v2.insert(x, a), v.insert(x, a));
                    } else {
                        law_add_meaning(lno, x, y, rhs.verb, z, v2, fuel);
                        let a = stepped(rhs.verb, lookup(v, y), lookup(v, z));
                        lemma_agrees_insert(v2, v, x, a);
                        let w = meaning(crate::lower::add_program(lno, x, y, rhs.verb, z), v2, fuel)->0;
                        lemma_agrees_trans(w, v2.insert(x, a), v.insert(x, a));
                    }
                },
                _ => {},
            }
        },
        Hir::Function(_) => {},
        Hir::Control(Control::Terms(ts)) => {
            let es = l->Control_0->Terms_0;
            assert(spec_new(l)->Terms_terms =~= news(es));
            lemma_lowered_terms(ts, es, 0, flags, v, v2, fuel);
        },
        Hir::Control(Control::Loop { lno, ident, terms }) => {
            let x = hir_expr(*ident)->Ident_0;
            let lt = *l->Control_0->Loop_terms;
            assert(lookup(v, x) == lookup(v2, x));
            lemma_lowered_loop(*terms, lt, lookup(v, x), flags, v, v2, fuel);
        },
        Hir::Control(Control::While { lno, comp, terms }) => {
            let lt = *l->Control_0->While_terms;
            lemma_lowered_while(comp_of(hir_expr(*comp)), *terms, lt, flags, v, v2, fuel);
        },
    }
}

proof fn lemma_lowered_terms(ts: Vec<Hir>, es: Seq<SExpr>, p: nat, flags: CompileFlags, v: Vars, v2: Vars, fuel: nat)
    requires
        flags.spec_contains(LOOP),
        opt(flags) ==> (forall|i: int| 0 <= i < ts@.len() ==> keeps_zero(#[trigger] ts@[i]))
            && lookup(v, const_ident()) == 0,
        es.len() == ts@.len(),
        forall|i: int| 0 <= i < ts@.len() ==> lowers_to(#[trigger] ts@[i], flags, es[i]),
        agrees(v, v2),
        hir_terms(ts, p, v, fuel) is Some,
    ensures
        outcome_terms(news(es), p, v2, fuel) matches Some(w) && agrees(w, hir_terms(ts, p, v, fuel)->0),
    decreases fuel, ts, if p < ts@.len() { (ts@.len() - p) as nat } else { 0 },
{
    if p < ts@.len() {
        assert(lowers_to(ts@[p as int], flags, es[p as int]));
        assert(decreases_to!(ts => ts@[p as int]));
        lemma_lowered_meaning(ts@[p as int], flags, es[p as int], v, v2, fuel);
        let v1 = hir_meaning(ts@[p as int], v, fuel)->0;
        let u1 = outcome(spec_new(es[p as int]), v2, fuel)->0;
        assert(news(es)[p as int] == spec_new(es[p as int]));
        lemma_agrees_symmetric(u1, v1);
        if opt(flags) {
            lemma_hir_keeps_zero(ts@[p as int], v, fuel);
        }
        lemma_lowered_terms(ts, es, p + 1, flags, v1, u1, fuel);
    } else {
        lemma_agrees_symmetric(v, v2);
    }
}

proof fn lemma_lowered_loop(body: Hir, lt: SExpr, k: nat, flags: CompileFlags, v: Vars, v2: Vars, fuel: nat)
    requires
        flags.spec_contains(LOOP),
        opt(flags) ==> keeps_zero(body) && lookup(v, const_ident()) == 0,
        lowers_to(body, flags, lt),
        agrees(v, v2),
        hir_loop(body, k, v, fuel) is Some,
    ensures
        outcome_loop(spec_new(lt), k, v2, fuel) matches Some(w) && agrees(w, hir_loop(body, k, v, fuel)->0),
    decreases fuel, body, k,
{
    if k > 0 {
        lemma_lowered_meaning(body, flags, lt, v, v2, fuel);
        let v1 = hir_meaning(body, v, fuel)->0;
        let u1 = outcome(spec_new(lt), v2, fuel)->0;
        lemma_agrees_symmetric(u1, v1);
        if opt(flags) {
            lemma_hir_keeps_zero(body, v, fuel);
        }
        lemma_lowered_loop(body, lt, (k - 1) as nat, flags, v1, u1, fuel);
    } else {
        lemma_agrees_symmetric(v, v2);
    }
}

proof fn lemma_lowered_while(c: SComp, body: Hir, lt: SExpr, flags: CompileFlags, v: Vars, v2: Vars, fuel: nat)
    requires
        flags.spec_contains(LOOP),
        opt(flags) ==> keeps_zero(body) && lookup(v, const_ident()) == 0,
        lowers_to(body, flags, lt),
        agrees(v, v2),
        hir_while(c, body, v, fuel) is Some,
    ensures
        outcome_while(c, spec_new(lt), v2, fuel) matches Some(w) && agrees(w, hir_while(c, body, v, fuel)->0),
    decreases fuel, body, 1nat,
{
    lemma_comp_agrees(c, v, v2);
    if eval_comp(c, v) {
        lemma_lowered_meaning(body, flags, lt, v, v2, fuel);
        let v1 = hir_meaning(body, v, fuel)->0;
        let u1 = outcome(spec_new(lt), v2, fuel)->0;
        lemma_agrees_symmetric(u1, v1);
        if opt(flags) {
            lemma_hir_keeps_zero(body, v, fuel);
        }
        lemma_lowered_while(c, body, lt, flags, v1, u1, (fuel - 1) as nat);
    } else {
        lemma_agrees_symmetric(v, v2);
    }
}

/// A source program lowers, then flattens, to the core program `e`.
pub open spec fn compiles_to(h: Hir, flags: CompileFlags, e: SExpr) -> bool {
    exists|l: SExpr| #[trigger] lowers_to(h, flags, l) && e == spec_flatten(l)
}

/// A program of core statements, lists, LOOPs, WHILEs and the assignment macros, compiled
/// with LOOP on, computes what the source program means: started from the same variables,
/// it ends with the same value in every variable. With the dedicated zero variable on, this
/// holds when the program does not assign to that variable and it starts at 0.
pub proof fn law_compiled_meaning(h: Hir, flags: CompileFlags, e: SExpr, v: Vars, fuel: nat)
    requires
        flags.spec_contains(LOOP),
        opt(flags) ==> keeps_zero(h) && lookup(v, const_ident()) == 0,
        compiles_to(h, flags, e),
        hir_meaning(h, v, fuel) is Some,
    ensures
        meaning(e, v, fuel) matches Some(w) && agrees(w, hir_meaning(h, v, fuel)->0),
{
    let l = choose|l: SExpr| #[trigger] lowers_to(h, flags, l) && e == spec_flatten(l);
    assert forall|k: Seq<char>| #[trigger] lookup(v, k) == lookup(v, k) by {}
    lemma_lowered_meaning(h, flags, l, v, v, fuel);
    law_flatten_keeps_meaning(l, v, fuel);
}

/// Run to its end by the step machine, a compiled program (see `law_compiled_meaning`)
/// ends with what the source program means: the same value in every variable.
pub proof fn law_run_compiled(h: Hir, flags: CompileFlags, e: SExpr, v: Vars, fuel: nat)
    requires
        runnable(e),
        flags.spec_contains(LOOP),
        opt(flags) ==> keeps_zero(h) && lookup(v, const_ident()) == 0,
        compiles_to(h, flags, e),
        hir_meaning(h, v, fuel) is Some,
    ensures
        exists|n: nat, w: Vars| #[trigger] runs(spec_new(e), v, n, w) && agrees(w, hir_meaning(h, v, fuel)->0),
{
    law_compiled_meaning(h, flags, e, v, fuel);
    law_machine_computes_meaning(e, v, fuel);
    let w = meaning(e, v, fuel)->0;
    let n = choose|n: nat| #[trigger] runs(spec_new(e), v, n, w);
    assert(runs(spec_new(e), v, n, w) && agrees(w, hir_meaning(h, v, fuel)->0));
}

// ---------------------------------------------------------------------------
// LOOP programs halt

/// A program without WHILE statements.
pub open spec fn while_free(e: SExpr) -> bool
    decreases e,
{
    match e {
        SExpr::Control(SControl::Terms(ts)) => forall|i: int| 0 <= i < ts.len() ==> while_free(#[trigger] ts[i]),
        SExpr::Control(SControl::Loop { terms, .. }) => while_free(*terms),
        SExpr::Control(SControl::While { .. }) => false,
        _ => true,
    }
}

/// A program without WHILE statements computes something from any variables.
proof fn lemma_while_free_outcome(e: SExpr, v: Vars)
    requires
        while_free(e),
    ensures
        outcome(spec_new(e), v, 0) is Some,
    decreases e, 0nat,
{
    match e {
        SExpr::Control(SControl::Terms(ts)) => {
            assert(spec_new(e)->Terms_terms =~= news(ts));
            lemma_while_free_terms(ts, 0, v);
        },
        SExpr::Control(SControl::Loop { ident, terms, .. }) => {
            match *ident {
                SExpr::Ident(x) => {
                    lemma_while_free_loop(*terms, lookup(v, x), v);
                },
                _ => {
                    assert(spec_new(e)->Terms_terms =~= Seq::<SExec>::empty());
                },
            }
        },
        SExpr::Assign { lhs, rhs, .. } => {
            if !(spec_new(e) is Assign) {
                assert(spec_new(e)->Terms_terms =~= Seq::<SExec>::empty());
            }
        },
        _ => {
            assert(spec_new(e)->Terms_terms =~= Seq::<SExec>::empty());
        },
    }
}

proof fn lemma_while_free_terms(ts: Seq<SExpr>, p: nat, v: Vars)
    requires
        forall|i: int| 0 <= i < ts.len() ==> while_free(#[trigger] ts[i]),
    ensures
        outcome_terms(news(ts), p, v, 0) is Some,
    decreases ts, if p < ts.len() { (ts.len() - p) as nat } else { 0 },
{
    if p < ts.len() {
        assert(while_free(ts[p as int]));
        assert(news(ts)[p as int] == spec_new(ts[p as int]));
        lemma_while_free_outcome(ts[p as int], v);
        lemma_while_free_terms(ts, p + 1, outcome(spec_new(ts[p as int]), v, 0)->0);
    }
}

proof fn lemma_while_free_loop(body: SExpr, k: nat, v: Vars)
    requires
        while_free(body),
    ensures
        outcome_loop(spec_new(body), k, v, 0) is Some,
    decreases body, k,
{
    if k > 0 {
        lemma_while_free_outcome(body, v);
        lemma_while_free_loop(body, (k - 1) as nat, outcome(spec_new(body), v, 0)->0);
    }
}

/// Every runnable program without WHILE statements, run by the step machine from any
/// variables, reports its end after finitely many steps.
pub proof fn law_loop_programs_halt(e: SExpr, v: Vars)
    requires
        runnable(e),
        while_free(e),
    ensures
        exists|n: nat, w: Vars| #[trigger] runs(spec_new(e), v, n, w),
{
    lemma_while_free_outcome(e, v);
    law_machine_computes_meaning(e, v, 0);
    let w = meaning(e, v, 0)->0;
    let n = choose|n: nat| #[trigger] runs(spec_new(e), v, n, w);
    assert(runs(spec_new(e), v, n, w));
}

/// A program in the language of flags without WHILE has no WHILE statements.
proof fn lemma_mode_while_free(e: SExpr, flags: CompileFlags)
    requires
        crate::expr::mode_ok(e, flags),
        !flags.spec_contains(crate::flags::WHILE),
    ensures
        while_free(e),
    decreases e,
{
    match e {
        SExpr::Control(SControl::Terms(ts)) => {
            assert(crate::expr::mode_ok_seq(ts, flags));
            assert forall|i: int| 0 <= i < ts.len() implies while_free(#[trigger] ts[i]) by {
                assert(crate::expr::mode_ok(ts[i], flags));
                lemma_mode_while_free(ts[i], flags);
            }
        },
        SExpr::Control(SControl::Loop { terms, .. }) => {
            lemma_mode_while_free(*terms, flags);
        },
        _ => {},
    }
}

/// Every program compiled without WHILE (a runnable program in that language: see
/// `Builder::compile`), run by the step machine from any variables, reports its end after
/// finitely many steps.
pub proof fn law_loop_mode_programs_halt(e: SExpr, flags: CompileFlags, v: Vars)
    requires
        runnable(e),
        crate::expr::mode_ok(e, flags),
        !flags.spec_contains(crate::flags::WHILE),
    ensures
        exists|n: nat, w: Vars| #[trigger] runs(spec_new(e), v, n, w),
{
    lemma_mode_while_free(e, flags);
    law_loop_programs_halt(e, v);
}

// ---------------------------------------------------------------------------
// Straight-line programs

/// What a simple statement means: `x := y` copies `y`, `x := n` sets `x`, `x := y + z`,
/// `x := y - z` (stopping at 0) and `x := y * z` compute, `x := y + n` and `x := y - n`
/// likewise. `None` where the library describes no meaning: `x := y op z` with `x` among
/// the operands read after writing it (see `macro_meaning`), and `x := y * n`.
pub open spec fn simple_meaning(st: Simple, v: Vars) -> Option<Vars> {
    match st {
        Simple::Copy { x, y } => Some(v.insert(x, lookup(v, y))),
        Simple::Value { x, n } => Some(v.insert(x, n)),
        Simple::Bin { x, y, verb, z } => if x == z || (verb == OperatorVerb::Multiply && x == y) {
            None
        } else if verb == OperatorVerb::Multiply {
            Some(v.insert(x, lookup(v, y) * lookup(v, z)))
        } else {
            Some(v.insert(x, stepped(verb, lookup(v, y), lookup(v, z))))
        },
        Simple::Num { x, y, verb, n } => if verb == OperatorVerb::Multiply {
            None
        } else {
            Some(v.insert(x, stepped(verb, lookup(v, y), n)))
        },
    }
}

/// A statement that stands for a simple statement means what the simple statement means.
proof fn lemma_simple_meaning(h: Hir, v: Vars, fuel: nat)
    requires
        simple_of(h) is Some,
    ensures
        hir_meaning(h, v, fuel) == simple_meaning(simple_of(h)->0, v),
{
    match h {
        Hir::Expr(x) => {
            let st = simple_of(h)->0;
            assert(spec_new(x@) is Assign);
            assert(eval_binop(spec_new(x@)->Assign_rhs, v) == stepped(st->Num_verb, lookup(v, st->Num_y), st->Num_n));
        },
        _ => {},
    }
}

/// The model of a WHILE condition.
pub open spec fn cond_comp(cd: Cond) -> SComp {
    SComp { lhs: side_model(cd.l), verb: cd.verb, rhs: side_model(cd.r) }
}

/// The model of a side of a condition.
pub open spec fn side_model(sd: Side) -> crate::eval::SSide {
    match sd {
        Side::Name(x) => crate::eval::SSide::Ident(x),
        Side::Num(n) => crate::eval::SSide::Num(n),
    }
}

/// What a statement means: `...` changes nothing; a simple statement means what
/// `simple_meaning` says; a LOOP runs its body as many times as its variable's value at
/// the start; a WHILE runs its body while its condition holds (`None` when that takes more
/// than `fuel` runs, at any depth). The meanings of an IF and of a call are not described
/// here (`None`; see `macro_meaning`).
pub open spec fn stmt_meaning(st: Stmt, v: Vars, fuel: nat) -> Option<Vars>
    decreases fuel, st, 0nat, 0nat,
{
    match st {
        Stmt::Pass => Some(v),
        Stmt::Simple(s) => simple_meaning(s, v),
        Stmt::Loop { x, body } => loop_meaning(body, lookup(v, x), v, fuel),
        Stmt::While { cond, body } => while_meaning(cond, body, v, fuel),
        Stmt::If { .. } => None,
        Stmt::Call { .. } => None,
    }
}

/// The statements from `p` on, run in turn.
pub open spec fn body_meaning(sts: Seq<Stmt>, p: nat, v: Vars, fuel: nat) -> Option<Vars>
    decreases fuel, sts, 0nat, if p < sts.len() { (sts.len() - p) as nat } else { 0 },
{
    if p >= sts.len() {
        Some(v)
    } else {
        match stmt_meaning(sts[p as int], v, fuel) {
            Some(v1) => body_meaning(sts, p + 1, v1, fuel),
            None => None,
        }
    }
}

/// A LOOP body run `k` times.
pub open spec fn loop_meaning(body: Seq<Stmt>, k: nat, v: Vars, fuel: nat) -> Option<Vars>
    decreases fuel, body, 1nat, k,
{
    if k == 0 {
        Some(v)
    } else {
        match body_meaning(body, 0, v, fuel) {
            Some(v1) => loop_meaning(body, (k - 1) as nat, v1, fuel),
            None => None,
        }
    }
}

/// A WHILE body run while the condition holds, at most `fuel` times.
pub open spec fn while_meaning(cd: Cond, body: Seq<Stmt>, v: Vars, fuel: nat) -> Option<Vars>
    decreases fuel, body, 1nat, 0nat,
{
    if !eval_comp(cond_comp(cd), v) {
        Some(v)
    } else if fuel == 0 {
        None
    } else {
        match body_meaning(body, 0, v, fuel) {
            Some(v1) => while_meaning(cd, body, v1, (fuel - 1) as nat),
            None => None,
        }
    }
}

/// A parsed statement means what the statement it was read from means.
proof fn lemma_stmt_parsed(h: Hir, st: Stmt, v: Vars, fuel: nat)
    requires
        parsed_as(h, st),
    ensures
        hir_meaning(h, v, fuel) == stmt_meaning(st, v, fuel),
    decreases fuel, st, 0nat, 0nat,
{
    match st {
        Stmt::Pass => {},
        Stmt::Simple(s) => {
            lemma_simple_meaning(h, v, fuel);
        },
        Stmt::Loop { x, body } => {
            let ident = h->Control_0->Loop_ident;
            let terms = h->Control_0->Loop_terms;
            assert(hir_expr(*ident) == SExpr::Ident(x));
            lemma_loop_parsed(*terms, body, lookup(v, x), v, fuel);
        },
        Stmt::While { cond, body } => {
            let comp = h->Control_0->While_comp;
            let terms = h->Control_0->While_terms;
            assert(hir_expr(*comp) == cond_expr(cond));
            assert(comp_of(cond_expr(cond)) == cond_comp(cond));
            lemma_while_parsed(*terms, cond, body, v, fuel);
        },
        Stmt::If { .. } => {},
        Stmt::Call { .. } => {},
    }
}

/// A parsed LOOP body run `k` times means the body it was read from run `k` times.
proof fn lemma_loop_parsed(t: Hir, body: Seq<Stmt>, k: nat, v: Vars, fuel: nat)
    requires
        t matches Hir::Control(Control::Terms(hs)) && hs@.len() == body.len()
            && forall|i: int| 0 <= i < body.len() ==> parsed_as(#[trigger] hs@[i], body[i]),
    ensures
        hir_loop(t, k, v, fuel) == loop_meaning(body, k, v, fuel),
    decreases fuel, body, 1nat, k,
{
    if k > 0 {
        let hs = t->Control_0->Terms_0;
        lemma_terms_parsed(hs, body, 0, v, fuel);
        assert(hir_meaning(t, v, fuel) == hir_terms(hs, 0, v, fuel));
        match body_meaning(body, 0, v, fuel) {
            Some(v1) => lemma_loop_parsed(t, body, (k - 1) as nat, v1, fuel),
            None => {},
        }
    }
}

/// A parsed WHILE body means the body it was read from, run while the condition holds.
proof fn lemma_while_parsed(t: Hir, cd: Cond, body: Seq<Stmt>, v: Vars, fuel: nat)
    requires
        t matches Hir::Control(Control::Terms(hs)) && hs@.len() == body.len()
            && forall|i: int| 0 <= i < body.len() ==> parsed_as(#[trigger] hs@[i], body[i]),
    ensures
        hir_while(cond_comp(cd), t, v, fuel) == while_meaning(cd, body, v, fuel),
    decreases fuel, body, 1nat, 0nat,
{
    if eval_comp(cond_comp(cd), v) && fuel > 0 {
        let hs = t->Control_0->Terms_0;
        lemma_terms_parsed(hs, body, 0, v, fuel);
        assert(hir_meaning(t, v, fuel) == hir_terms(hs, 0, v, fuel));
        match body_meaning(body, 0, v, fuel) {
            Some(v1) => lemma_while_parsed(t, cd, body, v1, (fuel - 1) as nat),
            None => {},
        }
    }
}

/// Parsed statements from `p` on mean the statements they were read from, run in turn.
proof fn lemma_terms_parsed(hs: Vec<Hir>, sts: Seq<Stmt>, p: nat, v: Vars, fuel: nat)
    requires
        hs@.len() == sts.len(),
        forall|i: int| 0 <= i < sts.len() ==> parsed_as(#[trigger] hs@[i], sts[i]),
    ensures
        hir_terms(hs, p, v, fuel) == body_meaning(sts, p, v, fuel),
    decreases fuel, sts, 0nat, if p < sts.len() { (sts.len() - p) as nat } else { 0 },
{
    if p < sts.len() {
        lemma_stmt_parsed(hs@[p as int], sts[p as int], v, fuel);
        match stmt_meaning(sts[p as int], v, fuel) {
            Some(v1) => lemma_terms_parsed(hs, sts, p + 1, v1, fuel),
            None => {},
        }
    }
}

/// A LOOP/WHILE program means its statements run in turn: a list of statements that the
/// parser read from the statements `sts` (simple statements, LOOPs and WHILEs) means what
/// `sts`, run in turn, mean.
pub proof fn law_program_meaning(hs: Vec<Hir>, sts: Seq<Stmt>, v: Vars, fuel: nat)
    requires
        hs@.len() == sts.len(),
        forall|i: int| 0 <= i < sts.len() ==> parsed_as(#[trigger] hs@[i], sts[i]),
    ensures
        hir_meaning(Hir::Control(Control::Terms(hs)), v, fuel) == body_meaning(sts, 0, v, fuel),
{
    lemma_terms_parsed(hs, sts, 0, v, fuel);
}

/// A LOOP/WHILE program, read by the parser and compiled with LOOP on, computes what its
/// statements mean when run in turn: started from the same variables, the compiled
/// program ends with the same value in every variable. With the dedicated zero variable
/// on, this holds when the program does not assign to that variable and it starts at 0.
pub proof fn law_source_meaning(hs: Vec<Hir>, sts: Seq<Stmt>, flags: CompileFlags, e: SExpr, v: Vars, fuel: nat)
    requires
        hs@.len() == sts.len(),
        forall|i: int| 0 <= i < sts.len() ==> parsed_as(#[trigger] hs@[i], sts[i]),
        flags.spec_contains(LOOP),
        opt(flags) ==> keeps_zero(Hir::Control(Control::Terms(hs))) && lookup(v, const_ident()) == 0,
        compiles_to(Hir::Control(Control::Terms(hs)), flags, e),
        body_meaning(sts, 0, v, fuel) is Some,
    ensures
        meaning(e, v, fuel) matches Some(w) && agrees(w, body_meaning(sts, 0, v, fuel)->0),
{
    law_program_meaning(hs, sts, v, fuel);
    law_compiled_meaning(Hir::Control(Control::Terms(hs)), flags, e, v, fuel);
}

} // verus!
