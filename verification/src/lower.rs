use vstd::prelude::*;
use crate::expr::{Expr, Control, SExpr, SControl, LineNo, runnable, runnable_seq, mode_ok, mode_ok_seq, views, lemma_terms_view, spec_flatten,
    flatten_seq, flatten_node, flatten_pieces, unwrap_terms, law_flatten_keeps_runnable, is_flat, lemma_flatten_fixes_flat};
use crate::uint::{UInt, decimal_string, digit_char};
use crate::verbs::{ComparisonVerb, OperatorVerb, str_eq};
use crate::errors::{Error, ErrorVariant, ErrorCode, StrictModeViolation, StdResult, check_errors, spec_check_errors};
use crate::flags::{CompileFlags, LOOP, WHILE, LOOP_AND_WHILE, CNF_CONST, OPT_ZERO, STRCT_NO_MACRO};
use crate::hir::is_atom_comparison;
use crate::modmap::mod_keys;
use crate::context::{CompileContext, Frame, private_name, spec_prefix_ident, prefix_ident, inline_count};
use crate::names::FuncQualName;

verus! {

broadcast use vstd::std_specs::vec::axiom_vec_index_decreases;

// ---------------------------------------------------------------------------
// What lowering produces

/// The variable that `CNF_CONST` keeps constant.
pub open spec fn const_ident() -> Seq<char> {
    "_zero"@
}

/// Constant variables are on.
pub open spec fn cst(flags: CompileFlags) -> bool {
    flags.spec_contains(CNF_CONST)
}

/// LOOP or WHILE is on.
pub open spec fn lw(flags: CompileFlags) -> bool {
    flags.spec_intersects(LOOP_AND_WHILE)
}

/// The dedicated zero variable is on.
pub open spec fn opt(flags: CompileFlags) -> bool {
    flags.spec_contains(OPT_ZERO)
}

/// A result that assigns to the constant variable.
pub open spec fn has_const(r: StdResult<Expr>) -> bool {
    r matches Ok(e) && const_lnos(e@).len() > 0
}

/// With constant variables on, a successful result does not assign to the constant.
pub open spec fn const_clean(r: StdResult<Expr>, flags: CompileFlags) -> bool {
    cst(flags) ==> !has_const(r)
}

/// A lowered program: runnable, and in the language the flags select.
pub open spec fn lowered(r: StdResult<Expr>, flags: CompileFlags) -> bool {
    r matches Ok(e) ==> runnable(e@) && mode_ok(e@, flags)
}

/// The line numbers of the assignments to the constant variable, in program order.
pub open spec fn const_lnos(e: SExpr) -> Seq<LineNo>
    decreases e, 0nat,
{
    match e {
        SExpr::Assign { lno, lhs, .. } => if *lhs == SExpr::Ident(const_ident()) {
            seq![lno]
        } else {
            seq![]
        },
        SExpr::Control(SControl::Terms(ts)) => const_lnos_seq(ts),
        SExpr::Control(SControl::Loop { ident, terms, .. }) => const_lnos(*ident) + const_lnos(*terms),
        SExpr::Control(SControl::While { comp, terms, .. }) => const_lnos(*comp) + const_lnos(*terms),
        _ => seq![],
    }
}

pub open spec fn const_lnos_seq(ts: Seq<SExpr>) -> Seq<LineNo>
    decreases ts, 0nat,
{
    if ts.len() == 0 {
        seq![]
    } else {
        const_lnos_seq(ts.drop_last()) + const_lnos(ts.last())
    }
}

/// The message of an assignment to the constant variable.
pub open spec fn const_message() -> Seq<char> {
    "Tried to assign a value to declared CONST "@ + const_ident() + ", not allowed with compilation flag CNF_CONST"@
}

/// `err` reports an assignment to the constant variable at `lno`.
pub open spec fn is_const_error(err: Error, lno: LineNo) -> bool {
    &&& err.lno == lno
    &&& err.variant is Message
    &&& err.variant->Message_0@ == const_message()
}

/// `es` reports the assignments to the constant variable at `ls`, one for one.
pub open spec fn errs_match(es: Seq<Error>, ls: Seq<LineNo>) -> bool {
    &&& es.len() == ls.len()
    &&& forall|i: int| 0 <= i < es.len() ==> is_const_error(#[trigger] es[i], ls[i])
}

/// The error that strict mode forbids `violation` at `lno`.
pub open spec fn is_strict_error(err: Error, lno: LineNo, violation: StrictModeViolation) -> bool {
    &&& err.lno == lno
    &&& err.variant == ErrorVariant::ErrorCode(ErrorCode::StrictModeViolation { violation })
}

/// The function `g` is being inlined in a frame of the stack `s`.
pub open spec fn on_stack(s: Seq<Frame>, g: (Seq<Seq<char>>, Seq<char>)) -> bool {
    exists|a: int| 0 <= a < s.len() && (#[trigger] s[a]).caller is Some && s[a].caller->Some_0@ == g
}

/// What lowering keeps of the context: flags, stack, the names of the modules, usable
/// modules, how often each function being inlined has been inlined, and the private
/// variables handed out (the counter of private names never goes back).
pub open spec fn keeps(c0: CompileContext, c1: CompileContext) -> bool {
    &&& c1.flags == c0.flags
    &&& c1.depth_bound == c0.depth_bound
    &&& c1.stack@ == c0.stack@
    &&& mod_keys(c1.modules) == mod_keys(c0.modules)
    &&& (c0.wf() ==> c1.wf())
    &&& forall|g: (Seq<Seq<char>>, Seq<char>)| #[trigger] on_stack(c0.stack@, g)
        ==> inline_count(c1.inline_counter@, g) == inline_count(c0.inline_counter@, g)
    &&& c1.counter() >= c0.counter()
}

// ---------------------------------------------------------------------------
// Facts on the models

proof fn lemma_decimal_first(n: nat)
    ensures
        decimal_string(n).len() >= 1,
        '0' <= decimal_string(n)[0] <= '9',
    decreases n,
{
    if n >= 10 {
        lemma_decimal_first(n / 10);
    }
}

/// A private variable is never the constant variable.
pub(crate) proof fn lemma_private_not_const(n: nat)
    ensures
        private_name(n) != const_ident(),
{
    lemma_decimal_first(n);
    reveal_strlit("_zero");
    reveal_strlit("_");
    assert(private_name(n)[1] == decimal_string(n)[0]);
    assert(const_ident()[1] == 'z');
}

proof fn lemma_errs_match_concat(a: Seq<Error>, la: Seq<LineNo>, b: Seq<Error>, lb: Seq<LineNo>)
    requires
        errs_match(a, la),
        errs_match(b, lb),
    ensures
        errs_match(a + b, la + lb),
{
    assert forall|i: int| 0 <= i < (a + b).len() implies is_const_error(#[trigger] (a + b)[i], (la + lb)[i]) by {
        if i < a.len() {
            assert((a + b)[i] == a[i]);
            assert((la + lb)[i] == la[i]);
        } else {
            assert((a + b)[i] == b[i - a.len()]);
            assert((la + lb)[i] == lb[i - la.len()]);
        }
    }
}

proof fn lemma_mode_ok_concat(a: Seq<SExpr>, b: Seq<SExpr>, flags: CompileFlags)
    requires
        mode_ok_seq(a, flags),
        mode_ok_seq(b, flags),
    ensures
        mode_ok_seq(a + b, flags),
{
    assert forall|i: int| 0 <= i < (a + b).len() implies mode_ok(#[trigger] (a + b)[i], flags) by {
        if i < a.len() {
            assert((a + b)[i] == a[i]);
        } else {
            assert((a + b)[i] == b[i - a.len()]);
        }
    }
}

proof fn lemma_flatten_mode_ok(e: SExpr, flags: CompileFlags)
    requires
        mode_ok(e, flags),
    ensures
        mode_ok(spec_flatten(e), flags),
    decreases e, 0nat,
{
    match e {
        SExpr::Control(SControl::Terms(ts)) => {
            lemma_flatten_seq_mode_ok(ts, flags);
        },
        SExpr::Control(SControl::Loop { terms, .. }) => {
            lemma_flatten_mode_ok(*terms, flags);
        },
        SExpr::Control(SControl::While { terms, .. }) => {
            lemma_flatten_mode_ok(*terms, flags);
        },
        _ => {},
    }
}

proof fn lemma_flatten_seq_mode_ok(ts: Seq<SExpr>, flags: CompileFlags)
    requires
        mode_ok_seq(ts, flags),
    ensures
        mode_ok_seq(flatten_seq(ts), flags),
    decreases ts, 0nat,
{
    if ts.len() > 0 {
        assert(mode_ok_seq(ts.drop_last(), flags)) by {
            assert forall|i: int| 0 <= i < ts.drop_last().len() implies mode_ok(#[trigger] ts.drop_last()[i], flags) by {
                assert(ts.drop_last()[i] == ts[i]);
            }
        }
        lemma_flatten_seq_mode_ok(ts.drop_last(), flags);
        assert(mode_ok(ts.last(), flags)) by {
            assert(ts.last() == ts[ts.len() - 1]);
        }
        lemma_flatten_node_mode_ok(ts.last(), flags);
        lemma_mode_ok_concat(flatten_seq(ts.drop_last()), flatten_node(ts.last()), flags);
    }
}

proof fn lemma_flatten_node_mode_ok(node: SExpr, flags: CompileFlags)
    requires
        mode_ok(node, flags),
    ensures
        mode_ok_seq(flatten_node(node), flags),
    decreases node, 1nat,
{
    match node {
        SExpr::Control(SControl::Terms(t)) => {
            lemma_flatten_pieces_mode_ok(t, flags);
        },
        _ => {
            lemma_flatten_mode_ok(node, flags);
            assert(flatten_node(node)[0] == spec_flatten(node));
        },
    }
}

proof fn lemma_flatten_pieces_mode_ok(t: Seq<SExpr>, flags: CompileFlags)
    requires
        mode_ok_seq(t, flags),
    ensures
        mode_ok_seq(flatten_pieces(t), flags),
    decreases t, 0nat,
{
    if t.len() > 0 {
        assert(mode_ok_seq(t.drop_last(), flags)) by {
            assert forall|i: int| 0 <= i < t.drop_last().len() implies mode_ok(#[trigger] t.drop_last()[i], flags) by {
                assert(t.drop_last()[i] == t[i]);
            }
        }
        lemma_flatten_pieces_mode_ok(t.drop_last(), flags);
        let y = t.last();
        assert(mode_ok(y, flags)) by {
            assert(y == t[t.len() - 1]);
        }
        lemma_flatten_mode_ok(y, flags);
        match y {
            SExpr::Control(SControl::Terms(inner)) => {
                lemma_flatten_seq_mode_ok(inner, flags);
            },
            _ => {
                assert(unwrap_terms(spec_flatten(y))[0] == spec_flatten(y));
            },
        }
        lemma_mode_ok_concat(flatten_pieces(t.drop_last()), unwrap_terms(spec_flatten(y)), flags);
    }
}

pub(crate) proof fn lemma_const_seq_concat(a: Seq<SExpr>, b: Seq<SExpr>)
    ensures
        const_lnos_seq(a + b) == const_lnos_seq(a) + const_lnos_seq(b),
    decreases b.len(),
{
    if b.len() == 0 {
        assert(a + b =~= a);
        assert(const_lnos_seq(b) =~= Seq::<LineNo>::empty());
        assert(const_lnos_seq(a) + const_lnos_seq(b) =~= const_lnos_seq(a));
    } else {
        assert((a + b).drop_last() =~= a + b.drop_last());
        assert((a + b).last() == b.last());
        lemma_const_seq_concat(a, b.drop_last());
        assert(const_lnos_seq(a + b) =~= const_lnos_seq(a) + const_lnos_seq(b.drop_last()) + const_lnos(b.last()));
    }
}

pub(crate) proof fn lemma_const_seq_single(x: SExpr)
    ensures
        const_lnos_seq(seq![x]) == const_lnos(x),
{
    assert(seq![x].drop_last() =~= Seq::<SExpr>::empty());
    assert(const_lnos_seq(seq![x]) =~= const_lnos_seq(Seq::<SExpr>::empty()) + const_lnos(x));
}

/// Flattening keeps the assignments to the constant variable, in order.
pub proof fn lemma_flatten_const(e: SExpr)
    ensures
        const_lnos(spec_flatten(e)) == const_lnos(e),
    decreases e, 0nat,
{
    match e {
        SExpr::Control(SControl::Terms(ts)) => {
            lemma_flatten_seq_const(ts);
        },
        SExpr::Control(SControl::Loop { terms, .. }) => {
            lemma_flatten_const(*terms);
        },
        SExpr::Control(SControl::While { terms, .. }) => {
            lemma_flatten_const(*terms);
        },
        _ => {},
    }
}

proof fn lemma_flatten_seq_const(ts: Seq<SExpr>)
    ensures
        const_lnos_seq(flatten_seq(ts)) == const_lnos_seq(ts),
    decreases ts, 0nat,
{
    if ts.len() > 0 {
        lemma_flatten_seq_const(ts.drop_last());
        lemma_flatten_node_const(ts.last());
        lemma_const_seq_concat(flatten_seq(ts.drop_last()), flatten_node(ts.last()));
    }
}

proof fn lemma_flatten_node_const(node: SExpr)
    ensures
        const_lnos_seq(flatten_node(node)) == const_lnos(node),
    decreases node, 1nat,
{
    match node {
        SExpr::Control(SControl::Terms(t)) => {
            lemma_flatten_pieces_const(t);
        },
        _ => {
            lemma_flatten_const(node);
            lemma_const_seq_single(spec_flatten(node));
        },
    }
}

proof fn lemma_flatten_pieces_const(t: Seq<SExpr>)
    ensures
        const_lnos_seq(flatten_pieces(t)) == const_lnos_seq(t),
    decreases t, 0nat,
{
    if t.len() > 0 {
        lemma_flatten_pieces_const(t.drop_last());
        let y = t.last();
        lemma_flatten_const(y);
        match spec_flatten(y) {
            SExpr::Control(SControl::Terms(inner)) => {},
            _ => {
                lemma_const_seq_single(spec_flatten(y));
            },
        }
        lemma_const_seq_concat(flatten_pieces(t.drop_last()), unwrap_terms(spec_flatten(y)));
    }
}

/// Some statement of the list assigns to the constant variable exactly when the list has
/// an assignment to it.
pub(crate) proof fn lemma_const_seq_any(ts: Seq<SExpr>)
    ensures
        const_lnos_seq(ts).len() > 0 <==> exists|i: int| 0 <= i < ts.len() && const_lnos(#[trigger] ts[i]).len() > 0,
    decreases ts.len(),
{
    if ts.len() > 0 {
        lemma_const_seq_any(ts.drop_last());
        if exists|i: int| 0 <= i < ts.drop_last().len() && const_lnos(#[trigger] ts.drop_last()[i]).len() > 0 {
            let i = choose|i: int| 0 <= i < ts.drop_last().len() && const_lnos(#[trigger] ts.drop_last()[i]).len() > 0;
            assert(ts[i] == ts.drop_last()[i]);
        }
        if exists|i: int| 0 <= i < ts.len() && const_lnos(#[trigger] ts[i]).len() > 0 {
            let i = choose|i: int| 0 <= i < ts.len() && const_lnos(#[trigger] ts[i]).len() > 0;
            if i < ts.len() - 1 {
                assert(ts.drop_last()[i] == ts[i]);
            }
        }
    }
}

// ---------------------------------------------------------------------------
// Constant check

/// Whether `s` names the constant variable.
fn is_const_ident(s: &String) -> (r: bool)
    ensures
        r == (s@ == const_ident()),
{
    str_eq(s.as_str(), "_zero")
}

fn const_error(lno: LineNo) -> (r: Error)
    ensures
        is_const_error(r, lno),
{
    let mut msg = String::from_str("Tried to assign a value to declared CONST ");
    msg.append("_zero");
    msg.append(", not allowed with compilation flag CNF_CONST");
    Error::new(lno, ErrorVariant::Message(msg))
}

/// Appends an error for each assignment to the constant variable in `e`.
fn collect_const_errors(e: &Expr, out: &mut Vec<Error>)
    ensures
        final(out)@ == old(out)@ + final(out)@.skip(old(out)@.len() as int),
        errs_match(final(out)@.skip(old(out)@.len() as int), const_lnos(e@)),
    decreases e, 0nat,
{
    let ghost start = old(out)@;
    match e {
        Expr::Assign { lno, lhs, .. } => {
            let hit = match &**lhs {
                Expr::Ident(s) => is_const_ident(s),
                _ => false,
            };
            assert(hit == (lhs@ == SExpr::Ident(const_ident())));
            if hit {
                out.push(const_error(*lno));
                assert(out@.skip(start.len() as int) =~= seq![out@[start.len() as int]]);
                assert(const_lnos(e@) == seq![*lno]);
            } else {
                assert(out@.skip(start.len() as int) =~= Seq::<Error>::empty());
                assert(const_lnos(e@) =~= Seq::<LineNo>::empty());
            }
            assert(out@ =~= start + out@.skip(start.len() as int));
        },
        Expr::Control(Control::Terms(ts)) => {
            proof {
                lemma_terms_view(*ts);
            }
            collect_const_errors_seq(ts, out);
        },
        Expr::Control(Control::Loop { ident, terms, .. }) => {
            collect_const_errors(&**ident, out);
            let ghost mid = out@;
            collect_const_errors(&**terms, out);
            proof {
                lemma_errs_match_concat(mid.skip(start.len() as int), const_lnos(ident@), out@.skip(mid.len() as int), const_lnos(terms@));
                assert(out@.skip(start.len() as int) =~= mid.skip(start.len() as int) + out@.skip(mid.len() as int));
                assert(out@ =~= start + out@.skip(start.len() as int));
            }
        },
        Expr::Control(Control::While { comp, terms, .. }) => {
            collect_const_errors(&**comp, out);
            let ghost mid = out@;
            collect_const_errors(&**terms, out);
            proof {
                lemma_errs_match_concat(mid.skip(start.len() as int), const_lnos(comp@), out@.skip(mid.len() as int), const_lnos(terms@));
                assert(out@.skip(start.len() as int) =~= mid.skip(start.len() as int) + out@.skip(mid.len() as int));
                assert(out@ =~= start + out@.skip(start.len() as int));
            }
        },
        _ => {
            assert(out@.skip(start.len() as int) =~= Seq::<Error>::empty());
            assert(out@ =~= start + out@.skip(start.len() as int));
        },
    }
}

fn collect_const_errors_seq(ts: &Vec<Expr>, out: &mut Vec<Error>)
    ensures
        final(out)@ == old(out)@ + final(out)@.skip(old(out)@.len() as int),
        errs_match(final(out)@.skip(old(out)@.len() as int), const_lnos_seq(views(ts@))),
    decreases ts, 1nat,
{
    let ghost start = old(out)@;
    let mut i: usize = 0;
    assert(out@.skip(start.len() as int) =~= Seq::<Error>::empty());
    assert(views(ts@).take(0) =~= Seq::<SExpr>::empty());
    while i < ts.len()
        invariant
            i <= ts@.len(),
            out@ == start + out@.skip(start.len() as int),
            errs_match(out@.skip(start.len() as int), const_lnos_seq(views(ts@).take(i as int))),
        decreases ts.len() - i,
    {
        let ghost before = out@;
        collect_const_errors(&ts[i], out);
        proof {
            let vs = views(ts@);
            assert(vs.take(i + 1).drop_last() =~= vs.take(i as int));
            assert(vs.take(i + 1).last() == ts@[i as int]@);
            lemma_errs_match_concat(before.skip(start.len() as int), const_lnos_seq(vs.take(i as int)),
                out@.skip(before.len() as int), const_lnos(ts@[i as int]@));
            assert(out@.skip(start.len() as int) =~= before.skip(start.len() as int) + out@.skip(before.len() as int));
            assert(out@ =~= start + out@.skip(start.len() as int));
        }
        i = i + 1;
    }
    proof {
        assert(views(ts@).take(ts@.len() as int) =~= views(ts@));
    }
}

impl Expr {
    /// Checks the lowered program against the flags: with `CNF_CONST`, each assignment to
    /// the constant variable `_zero` is an error (all of them are reported, in program
    /// order); otherwise the program is returned unchanged.
    pub fn verify(self, context: &CompileContext) -> (r: StdResult<Expr>)
        ensures
            r is Err <==> (context.flags.spec_contains(CNF_CONST) && const_lnos(self@).len() > 0),
            r matches Ok(e) ==> e@ == self@,
            r matches Err(es) ==> errs_match(es@, const_lnos(self@)),
    {
        if context.flags.contains(CNF_CONST) {
            let mut errs: Vec<Error> = Vec::new();
            collect_const_errors(&self, &mut errs);
            assert(errs@.skip(0) =~= errs@);
            if errs.len() > 0 {
                return Err(errs);
            }
        }
        Ok(self)
    }
}

/// The tail of every compilation: the constant check, then flattening.
pub fn finish(e: Expr, context: &CompileContext) -> (r: StdResult<Expr>)
    requires
        runnable(e@),
        mode_ok(e@, context.flags),
    ensures
        r is Err <==> (context.flags.spec_contains(CNF_CONST) && const_lnos(e@).len() > 0),
        r matches Ok(f) ==> f@ == spec_flatten(e@),
        r matches Err(es) ==> errs_match(es@, const_lnos(e@)),
        lowered(r, context.flags),
        const_clean(r, context.flags),
{
    let v = e.verify(context);
    match v {
        Ok(v) => {
            proof {
                law_flatten_keeps_runnable(v@);
                lemma_flatten_mode_ok(v@, context.flags);
                lemma_flatten_const(v@);
            }
            Ok(v.flatten())
        },
        Err(es) => Err(es),
    }
}

// ---------------------------------------------------------------------------
// Statement lists

proof fn lemma_check_errors_ok(maybe: Seq<StdResult<Expr>>)
    ensures
        spec_check_errors(maybe) matches Ok(vs) ==> vs.len() == maybe.len() && forall|i: int|
            0 <= i < maybe.len() ==> #[trigger] maybe[i] == Ok::<Expr, Vec<Error>>(vs[i]),
        spec_check_errors(maybe) is Err <==> exists|i: int| 0 <= i < maybe.len() && (#[trigger] maybe[i]) is Err,
    decreases maybe.len(),
{
    if maybe.len() > 0 {
        let d = maybe.drop_last();
        lemma_check_errors_ok(d);
        let n = maybe.len() - 1;
        assert forall|i: int| 0 <= i < n implies #[trigger] d[i] == maybe[i] by {}
        match (spec_check_errors(d), maybe.last()) {
            (Ok(vs), Ok(v)) => {
                let w = vs.push(v);
                assert forall|i: int| 0 <= i < maybe.len() implies #[trigger] maybe[i] == Ok::<Expr, Vec<Error>>(w[i]) by {
                    if i < n {
                        assert(d[i] == Ok::<Expr, Vec<Error>>(vs[i]));
                    }
                }
                assert(!exists|i: int| 0 <= i < maybe.len() && (#[trigger] maybe[i]) is Err) by {
                    if exists|i: int| 0 <= i < maybe.len() && (#[trigger] maybe[i]) is Err {
                        let j = choose|i: int| 0 <= i < maybe.len() && (#[trigger] maybe[i]) is Err;
                        if j < n {
                            assert(d[j] == maybe[j]);
                        }
                    }
                }
            },
            (Ok(_), Err(_)) => {
                assert(maybe[n] is Err);
            },
            (Err(_), _) => {
                let j = choose|i: int| 0 <= i < d.len() && (#[trigger] d[i]) is Err;
                assert(maybe[j] is Err);
            },
        }
    }
}

/// The statement list of the results, or the errors of all failed ones.
pub(crate) fn terms_of(maybe: Vec<StdResult<Expr>>, Ghost(flags): Ghost<CompileFlags>) -> (r: StdResult<Expr>)
    requires
        forall|i: int| 0 <= i < maybe@.len() ==> lowered(#[trigger] maybe@[i], flags),
    ensures
        lowered(r, flags),
        r is Err <==> exists|i: int| 0 <= i < maybe@.len() && (#[trigger] maybe@[i]) is Err,
        r matches Ok(e) ==> e@ == SExpr::Control(SControl::Terms(Seq::new(maybe@.len(), |i: int| maybe@[i]->Ok_0@))),
{
    let ghost m = maybe@;
    proof {
        lemma_check_errors_ok(m);
    }
    match check_errors(maybe) {
        Ok(vs) => {
            let e = Expr::Control(Control::Terms(vs));
            proof {
                lemma_terms_view(vs);
                assert(views(vs@) =~= Seq::new(m.len(), |i: int| m[i]->Ok_0@));
                assert forall|i: int| 0 <= i < views(vs@).len() implies runnable(#[trigger] views(vs@)[i]) by {
                    assert(m[i] == Ok::<Expr, Vec<Error>>(vs@[i]));
                }
                assert forall|i: int| 0 <= i < views(vs@).len() implies mode_ok(#[trigger] views(vs@)[i], flags) by {
                    assert(m[i] == Ok::<Expr, Vec<Error>>(vs@[i]));
                }
                assert(runnable_seq(views(vs@)));
                assert(mode_ok_seq(views(vs@), flags));
            }
            Ok(e)
        },
        Err(es) => Err(es),
    }
}

/// A lowered WHILE on `comp` with the lowered body `terms`: the errors of the body, and an
/// error when `WHILE` is not set.
pub fn while_stmt(context: &CompileContext, lno: LineNo, comp: Expr, terms: StdResult<Expr>) -> (r: StdResult<Expr>)
    requires
        is_atom_comparison(comp@),
        lowered(terms, context.flags),
    ensures
        lowered(r, context.flags),
        r is Err <==> (terms is Err || !context.flags.spec_contains(WHILE)),
        r matches Ok(e) ==> e@ == SExpr::Control(SControl::While { lno, comp: Box::new(comp@), terms: Box::new(terms->Ok_0@) }),
{
    let ghost cv = comp@;
    let mut maybe: Vec<StdResult<Expr>> = Vec::new();
    maybe.push(Ok(comp));
    maybe.push(terms);
    if !context.flags.contains(WHILE) {
        let mut es: Vec<Error> = Vec::new();
        es.push(Error::new_from_msg(Some(lno), "Cannot replicate WHILE in LOOP mode!"));
        maybe.push(Err(es));
    }
    let ghost m = maybe@;
    proof {
        lemma_check_errors_ok(m);
        if !context.flags.spec_contains(WHILE) {
            assert(m[2] is Err);
        }
        if terms is Err {
            assert(m[1] is Err);
        }
    }
    match check_errors(maybe) {
        Ok(parts) => {
            proof {
                assert(m[0] == Ok::<Expr, Vec<Error>>(parts@[0]));
                assert(m[1] == Ok::<Expr, Vec<Error>>(parts@[1]));
            }
            let mut parts = parts;
            let body = parts.remove(1);
            let c = parts.remove(0);
            let w = Expr::Control(Control::While { lno, comp: Box::new(c), terms: Box::new(body) });
            Ok(w)
        },
        Err(es) => Err(es),
    }
}

// ---------------------------------------------------------------------------
// Macro expansions

/// The model of `x := y verb n`.
pub open spec fn sassign(lno: LineNo, x: Seq<char>, y: Seq<char>, verb: OperatorVerb, n: nat) -> SExpr {
    SExpr::Assign {
        lno,
        lhs: Box::new(SExpr::Ident(x)),
        rhs: Box::new(SExpr::BinaryOp { lhs: Box::new(SExpr::Ident(y)), verb, rhs: Box::new(SExpr::Num(n)) }),
    }
}

/// A statement list.
pub open spec fn slist(ts: Seq<SExpr>) -> SExpr {
    SExpr::Control(SControl::Terms(ts))
}

/// `x := y` compiled: `x := y + 0`.
pub open spec fn copy_program(lno: LineNo, x: Seq<char>, y: Seq<char>) -> SExpr {
    slist(seq![sassign(lno, x, y, OperatorVerb::Plus, 0)])
}

/// `LOOP z DO x := x verb 1 END`.
pub open spec fn step_loop(lno: LineNo, z: Seq<char>, x: Seq<char>, verb: OperatorVerb) -> SExpr {
    SExpr::Control(SControl::Loop {
        lno,
        ident: Box::new(SExpr::Ident(z)),
        terms: Box::new(slist(seq![sassign(lno, x, x, verb, 1)])),
    })
}

/// `LOOP x DO x := x - 1 END`.
pub open spec fn zero_loop(lno: LineNo, x: Seq<char>) -> SExpr {
    step_loop(lno, x, x, OperatorVerb::Minus)
}

/// `x := y + z` (`x := y - z`) compiled with LOOP: `x := y + 0`, then
/// `LOOP z DO x := x + 1 END` (`x := x - 1`).
pub open spec fn add_program(lno: LineNo, x: Seq<char>, y: Seq<char>, verb: OperatorVerb, z: Seq<char>) -> SExpr {
    slist(seq![sassign(lno, x, y, OperatorVerb::Plus, 0), step_loop(lno, z, x, verb)])
}

/// `x := y * z` compiled with LOOP (and without the dedicated zero variable): the LOOP
/// that zeroes `x`, then `LOOP y DO x := x + z END` with the addition expanded.
pub open spec fn mul_program(lno: LineNo, x: Seq<char>, y: Seq<char>, z: Seq<char>) -> SExpr {
    slist(seq![zero_loop(lno, x), SExpr::Control(SControl::Loop {
        lno,
        ident: Box::new(SExpr::Ident(y)),
        terms: Box::new(add_program(lno, x, x, OperatorVerb::Plus, z)),
    })])
}

/// `x := 0` compiled with `LOOP` (and without the dedicated zero variable).
pub open spec fn zero_program(lno: LineNo, x: Seq<char>) -> SExpr {
    slist(seq![zero_loop(lno, x)])
}

/// `x := 0` compiled with WHILE only (without the dedicated zero variable): `x := x - 1` in a
/// WHILE that counts a copy of `x`, the `k`-th private variable, down to zero.
pub open spec fn zero_while(lno: LineNo, x: Seq<char>, k: nat) -> SExpr {
    spec_flatten(slist(seq![counted_while(lno, x, slist(seq![sassign(lno, x, x, OperatorVerb::Minus, 1)]), private_name(k))]))
}

/// `x := n` compiled with WHILE only (without the dedicated zero variable): `x := 0` as
/// `zero_while` compiles it, then `x := x + n`.
pub open spec fn value_while(lno: LineNo, x: Seq<char>, n: nat, k: nat) -> SExpr {
    spec_flatten(slist(seq![zero_while(lno, x, k), sassign(lno, x, x, OperatorVerb::Plus, n)]))
}

/// `x := y + z` (`x := y - z`) compiled with WHILE only: `x := y`, then `x := x + 1`
/// (`x := x - 1`) in a WHILE that counts a copy of `z`, the `k`-th private variable, down.
pub open spec fn add_while(lno: LineNo, x: Seq<char>, y: Seq<char>, verb: OperatorVerb, z: Seq<char>, k: nat) -> SExpr {
    spec_flatten(slist(seq![copy_program(lno, x, y), counted_while(lno, z, slist(seq![sassign(lno, x, x, verb, 1)]),
        private_name(k))]))
}

/// `x := n` compiled with the dedicated zero variable: `x := _zero + n`.
pub open spec fn value_from_zero(lno: LineNo, x: Seq<char>, n: nat) -> SExpr {
    slist(seq![sassign(lno, x, const_ident(), OperatorVerb::Plus, n)])
}

/// `x := n` compiled with `LOOP` (and without the dedicated zero variable): the LOOP that
/// zeroes `x`, then `x := x + n`.
pub open spec fn value_program(lno: LineNo, x: Seq<char>, n: nat) -> SExpr {
    slist(seq![zero_loop(lno, x), sassign(lno, x, x, OperatorVerb::Plus, n)])
}

/// A list of one flat statement that is no list is flat.
proof fn lemma_single_flat(a: SExpr)
    requires
        is_flat(a),
        !(a is Control && a->Control_0 is Terms),
    ensures
        is_flat(slist(seq![a])),
{
    let ts = seq![a];
    assert forall|i: int| 0 <= i < ts.len() implies !(#[trigger] ts[i] is Control && ts[i]->Control_0 is Terms)
        && is_flat(ts[i]) by {
        assert(ts[i] == a);
    }
}

/// These compiled programs are flat: flattening leaves them as they are.
proof fn lemma_programs_flat(lno: LineNo, x: Seq<char>, y: Seq<char>, n: nat)
    ensures
        spec_flatten(copy_program(lno, x, y)) == copy_program(lno, x, y),
        spec_flatten(zero_program(lno, x)) == zero_program(lno, x),
        spec_flatten(value_from_zero(lno, x, n)) == value_from_zero(lno, x, n),
        spec_flatten(slist(seq![zero_program(lno, x), sassign(lno, x, x, OperatorVerb::Plus, n)])) == value_program(lno, x, n),
{
    let a = sassign(lno, x, y, OperatorVerb::Plus, 0);
    lemma_single_flat(a);
    lemma_flatten_fixes_flat(copy_program(lno, x, y));
    let d = sassign(lno, x, x, OperatorVerb::Minus, 1);
    lemma_single_flat(d);
    assert(is_flat(zero_loop(lno, x)));
    lemma_single_flat(zero_loop(lno, x));
    lemma_flatten_fixes_flat(zero_program(lno, x));
    let z = sassign(lno, x, const_ident(), OperatorVerb::Plus, n);
    lemma_single_flat(z);
    lemma_flatten_fixes_flat(value_from_zero(lno, x, n));
    let p = sassign(lno, x, x, OperatorVerb::Plus, n);
    let zl = zero_loop(lno, x);
    lemma_flatten_fixes_flat(zl);
    let ts = seq![zero_program(lno, x), p];
    assert(ts.drop_last() =~= seq![zero_program(lno, x)]);
    assert(seq![zero_program(lno, x)].drop_last() =~= Seq::<SExpr>::empty());
    assert(flatten_pieces(seq![zl]) == flatten_pieces(Seq::<SExpr>::empty()) + unwrap_terms(spec_flatten(zl))) by {
        assert(seq![zl].drop_last() =~= Seq::<SExpr>::empty());
    }
    assert(flatten_node(zero_program(lno, x)) =~= seq![zl]);
    assert(seq![zero_program(lno, x)].last() == zero_program(lno, x));
    assert(flatten_seq(Seq::<SExpr>::empty()) =~= Seq::<SExpr>::empty());
    assert(flatten_seq(seq![zero_program(lno, x)]) =~= seq![zl]);
    assert(flatten_node(p) == seq![p]);
    assert(flatten_seq(ts) =~= seq![zl, p]);
}

/// `x := y * z` compiled with LOOP and the dedicated zero variable: `x := _zero + 0`, then
/// `LOOP y DO x := x + z END` with the addition expanded.
pub open spec fn mul_from_zero(lno: LineNo, x: Seq<char>, y: Seq<char>, z: Seq<char>) -> SExpr {
    slist(seq![sassign(lno, x, const_ident(), OperatorVerb::Plus, 0), SExpr::Control(SControl::Loop {
        lno,
        ident: Box::new(SExpr::Ident(y)),
        terms: Box::new(add_program(lno, x, x, OperatorVerb::Plus, z)),
    })])
}

/// The compiled binary operations are flat: flattening their pieces gives them.
proof fn lemma_binop_programs_flat(lno: LineNo, x: Seq<char>, y: Seq<char>, verb: OperatorVerb, z: Seq<char>)
    ensures
        spec_flatten(slist(seq![copy_program(lno, x, y), step_loop(lno, z, x, verb)])) == add_program(lno, x, y, verb, z),
        spec_flatten(slist(seq![zero_program(lno, x), SExpr::Control(SControl::Loop {
            lno,
            ident: Box::new(SExpr::Ident(y)),
            terms: Box::new(slist(seq![add_program(lno, x, x, OperatorVerb::Plus, z)])),
        })])) == mul_program(lno, x, y, z),
        spec_flatten(slist(seq![copy_program(lno, x, const_ident()), SExpr::Control(SControl::Loop {
            lno,
            ident: Box::new(SExpr::Ident(y)),
            terms: Box::new(slist(seq![add_program(lno, x, x, OperatorVerb::Plus, z)])),
        })])) == mul_from_zero(lno, x, y, z),
{
    let a = sassign(lno, x, y, OperatorVerb::Plus, 0);
    let st = sassign(lno, x, x, verb, 1);
    let sl = step_loop(lno, z, x, verb);
    lemma_single_flat(st);
    lemma_flatten_fixes_flat(sl);
    lemma_flatten_fixes_flat(a);
    let cp = copy_program(lno, x, y);
    assert(seq![a].drop_last() =~= Seq::<SExpr>::empty());
    assert(seq![a].last() == a);
    assert(flatten_pieces(Seq::<SExpr>::empty()) =~= Seq::<SExpr>::empty());
    assert(unwrap_terms(a) == seq![a]);
    assert(flatten_pieces(seq![a]) =~= seq![a]);
    assert(flatten_node(cp) =~= seq![a]);
    let ts = seq![cp, sl];
    assert(ts.drop_last() =~= seq![cp]);
    assert(ts.last() == sl);
    assert(seq![cp].drop_last() =~= Seq::<SExpr>::empty());
    assert(seq![cp].last() == cp);
    assert(flatten_seq(Seq::<SExpr>::empty()) =~= Seq::<SExpr>::empty());
    assert(flatten_seq(seq![cp]) =~= seq![a]);
    assert(flatten_node(sl) == seq![sl]);
    assert(flatten_seq(ts) =~= seq![a, sl]);

    // the multiplication
    let a2 = sassign(lno, x, x, OperatorVerb::Plus, 0);
    let st2 = sassign(lno, x, x, OperatorVerb::Plus, 1);
    let sl2 = step_loop(lno, z, x, OperatorVerb::Plus);
    lemma_single_flat(st2);
    lemma_flatten_fixes_flat(sl2);
    lemma_flatten_fixes_flat(a2);
    let ap = add_program(lno, x, x, OperatorVerb::Plus, z);
    let t2 = seq![a2, sl2];
    assert(t2.drop_last() =~= seq![a2]);
    assert(t2.last() == sl2);
    assert(seq![a2].drop_last() =~= Seq::<SExpr>::empty());
    assert(seq![a2].last() == a2);
    assert(unwrap_terms(a2) == seq![a2]);
    assert(flatten_pieces(seq![a2]) =~= seq![a2]);
    assert(flatten_pieces(t2) =~= seq![a2, sl2]);
    assert(flatten_node(ap) =~= seq![a2, sl2]);
    assert(seq![ap].drop_last() =~= Seq::<SExpr>::empty());
    assert(seq![ap].last() == ap);
    assert(flatten_seq(seq![ap]) =~= seq![a2, sl2]);
    assert(spec_flatten(slist(seq![ap])) == ap);
    let inner = SExpr::Control(SControl::Loop { lno, ident: Box::new(SExpr::Ident(y)), terms: Box::new(slist(seq![ap])) });
    let outer = SExpr::Control(SControl::Loop { lno, ident: Box::new(SExpr::Ident(y)), terms: Box::new(ap) });
    assert(spec_flatten(inner) == outer);
    let zp = zero_program(lno, x);
    let zl = zero_loop(lno, x);
    lemma_programs_flat(lno, x, x, 0);
    lemma_single_flat(sassign(lno, x, x, OperatorVerb::Minus, 1));
    lemma_flatten_fixes_flat(zl);
    assert(seq![zl].drop_last() =~= Seq::<SExpr>::empty());
    assert(seq![zl].last() == zl);
    assert(unwrap_terms(zl) == seq![zl]);
    assert(flatten_pieces(seq![zl]) =~= seq![zl]);
    assert(flatten_node(zp) =~= seq![zl]);
    let ms = seq![zp, inner];
    assert(ms.drop_last() =~= seq![zp]);
    assert(ms.last() == inner);
    assert(seq![zp].drop_last() =~= Seq::<SExpr>::empty());
    assert(seq![zp].last() == zp);
    assert(flatten_seq(seq![zp]) =~= seq![zl]);
    assert(flatten_node(inner) == seq![outer]);
    assert(flatten_seq(ms) =~= seq![zl, outer]);

    // the multiplication from the zero variable
    let az = sassign(lno, x, const_ident(), OperatorVerb::Plus, 0);
    let cz = copy_program(lno, x, const_ident());
    lemma_flatten_fixes_flat(az);
    assert(seq![az].drop_last() =~= Seq::<SExpr>::empty());
    assert(seq![az].last() == az);
    assert(unwrap_terms(az) == seq![az]);
    assert(flatten_pieces(seq![az]) =~= seq![az]);
    assert(flatten_node(cz) =~= seq![az]);
    let mz = seq![cz, inner];
    assert(mz.drop_last() =~= seq![cz]);
    assert(mz.last() == inner);
    assert(seq![cz].drop_last() =~= Seq::<SExpr>::empty());
    assert(seq![cz].last() == cz);
    assert(flatten_seq(seq![cz]) =~= seq![az]);
    assert(flatten_seq(mz) =~= seq![az, outer]);
}

/// `x := y verb n`.
fn plain_assign(lno: LineNo, x: &String, y: &String, verb: OperatorVerb, n: UInt) -> (r: Expr)
    requires
        verb != OperatorVerb::Multiply,
    ensures
        r@ == sassign(lno, x@, y@, verb, n@),
        runnable(r@),
{
    let l = Expr::Ident(x.clone());
    let a = Expr::Ident(y.clone());
    let b = Expr::NaturalNumber(n);
    assert(l@ == SExpr::Ident(x@));
    assert(a@ == SExpr::Ident(y@));
    assert(b@ == SExpr::Num(n@));
    let op = Expr::BinaryOp { lhs: Box::new(a), verb, rhs: Box::new(b) };
    assert(op@ == SExpr::BinaryOp { lhs: Box::new(SExpr::Ident(y@)), verb, rhs: Box::new(SExpr::Num(n@)) });
    Expr::Assign { lno, lhs: Box::new(l), rhs: Box::new(op) }
}

/// A list of one statement.
fn single(e: Expr, Ghost(flags): Ghost<CompileFlags>) -> (r: Expr)
    requires
        runnable(e@),
        mode_ok(e@, flags),
    ensures
        r@ == SExpr::Control(SControl::Terms(seq![e@])),
        runnable(r@),
        mode_ok(r@, flags),
{
    let ghost ev = e@;
    let mut v: Vec<Expr> = Vec::new();
    v.push(e);
    proof {
        lemma_terms_view(v);
        assert(views(v@) =~= seq![ev]);
        let sq = seq![ev];
        assert forall|i: int| 0 <= i < 1 implies runnable(#[trigger] sq[i]) && mode_ok(sq[i], flags) by {
            assert(sq[i] == ev);
        }
        assert(runnable_seq(sq));
        assert(mode_ok_seq(sq, flags));
    }
    Expr::Control(Control::Terms(v))
}

/// A list of two statements.
fn pair(a: Expr, b: Expr, Ghost(flags): Ghost<CompileFlags>) -> (r: Expr)
    requires
        runnable(a@),
        mode_ok(a@, flags),
        runnable(b@),
        mode_ok(b@, flags),
    ensures
        r@ == SExpr::Control(SControl::Terms(seq![a@, b@])),
        runnable(r@),
        mode_ok(r@, flags),
{
    let ghost av = a@;
    let ghost bv = b@;
    let mut v: Vec<Expr> = Vec::new();
    v.push(a);
    v.push(b);
    proof {
        lemma_terms_view(v);
        assert(views(v@) =~= seq![av, bv]);
        let sq = seq![av, bv];
        assert forall|i: int| 0 <= i < 2 implies runnable(#[trigger] sq[i]) && mode_ok(sq[i], flags) by {
            if i == 0 {
                assert(sq[i] == av);
            } else {
                assert(sq[i] == bv);
            }
        }
        assert(runnable_seq(sq));
        assert(mode_ok_seq(sq, flags));
    }
    Expr::Control(Control::Terms(v))
}

/// `x := y` expands to `x := y + 0`.
pub(crate) fn expand_assign_to_ident(context: &CompileContext, lno: LineNo, x: &String, y: &String) -> (r: StdResult<Expr>)
    ensures
        lowered(r, context.flags),
        const_clean(r, context.flags),
        r is Err <==> (context.flags.spec_contains(CNF_CONST) && x@ == const_ident()),
        r matches Ok(e) ==> (const_lnos(e@).len() > 0 <==> x@ == const_ident()),
        r matches Ok(e) ==> e@ == copy_program(lno, x@, y@),
{
    let a = plain_assign(lno, x, y, OperatorVerb::Plus, UInt::zero());
    let t = single(a, Ghost(context.flags));
    proof {
        lemma_const_seq_single(a@);
        lemma_flatten_const(t@);
        lemma_programs_flat(lno, x@, y@, 0);
    }
    finish(t, context)
}

/// Without `LOOP`, a LOOP over `x` with the body `body`: `k := x + 0`, then
/// `WHILE k != 0 DO body; k := k - 1 END`, for a private variable `k`.
pub open spec fn counted_while(lno: LineNo, x: Seq<char>, body: SExpr, k: Seq<char>) -> SExpr {
    slist(seq![
        copy_program(lno, k, x),
        SExpr::Control(SControl::While {
            lno,
            comp: Box::new(SExpr::Comparison {
                lhs: Box::new(SExpr::Ident(k)),
                verb: ComparisonVerb::NotEqual,
                rhs: Box::new(SExpr::Num(0)),
            }),
            terms: Box::new(slist(seq![body, sassign(lno, k, k, OperatorVerb::Minus, 1)])),
        }),
    ])
}

/// A LOOP over the variable `ident`, or (without `LOOP`) the WHILE that counts a private
/// copy of it down. Needs `LOOP` or `WHILE`.
pub(crate) fn build_loop(context: &mut CompileContext, lno: LineNo, ident: &String, terms: Expr) -> (r: StdResult<Expr>)
    requires
        runnable(terms@),
        mode_ok(terms@, old(context).flags),
        old(context).flags.spec_intersects(LOOP_AND_WHILE),
    ensures
        old(context).flags.spec_contains(LOOP) ==> final(context).counter() == old(context).counter(),
        lowered(r, old(context).flags),
        keeps(*old(context), *final(context)),
        r is Err <==> (!old(context).flags.spec_contains(LOOP) && old(context).flags.spec_contains(STRCT_NO_MACRO)),
        r matches Err(es) ==> es@.len() == 1 && is_strict_error(es@[0], lno, StrictModeViolation::MacroForbidden),
        r matches Ok(e) ==> const_lnos(e@) == const_lnos(terms@),
        old(context).flags.spec_contains(LOOP) ==> r == Ok::<Expr, Vec<Error>>(r->Ok_0)
            && r->Ok_0@ == SExpr::Control(SControl::Loop { lno, ident: Box::new(SExpr::Ident(ident@)), terms: Box::new(terms@) }),
        !old(context).flags.spec_contains(LOOP) && !old(context).flags.spec_contains(STRCT_NO_MACRO) ==> (r matches Ok(e)
            && e@ == counted_while(lno, ident@, terms@, private_name(old(context).counter()))),
        final(context).modules == old(context).modules,
{
    if context.flags.contains(LOOP) {
        let i = Expr::Ident(ident.clone());
        assert(i@ == SExpr::Ident(ident@));
        let r = Expr::Control(Control::Loop { lno, ident: Box::new(i), terms: Box::new(terms) });
        assert(r@ == SExpr::Control(SControl::Loop { lno, ident: Box::new(SExpr::Ident(ident@)), terms: Box::new(terms@) }));
        assert(const_lnos(SExpr::Ident(ident@)) =~= Seq::<LineNo>::empty());
        assert(const_lnos(r@) =~= const_lnos(terms@));
        Ok(r)
    } else {
        let bits = context.flags.bits;
        proof {
            assert(bits & 2u16 == 2u16) by (bit_vector)
                requires
                    bits & 3u16 != 0u16,
                    bits & 1u16 != 1u16;
        }
        let ghost c0 = context.counter();
        let tmp = context.priv_ident();
        if context.flags.contains(STRCT_NO_MACRO) {
            let mut es: Vec<Error> = Vec::new();
            es.push(Error::new_from_code(Some(lno), ErrorCode::StrictModeViolation { violation: StrictModeViolation::MacroForbidden }));
            return Err(es);
        }
        proof {
            lemma_private_not_const(c0);
        }
        let copy = expand_assign_to_ident(context, lno, &tmp, ident);
        let copy = match copy {
            Ok(c) => c,
            Err(_) => {
                assert(false);
                return Err(Vec::new());
            }
        };
        let dec = plain_assign(lno, &tmp, &tmp, OperatorVerb::Minus, UInt::one());
        let ghost tv = terms@;
        let ghost dv = dec@;
        let body = pair(terms, dec, Ghost(context.flags));
        proof {
            assert(const_lnos(dv) =~= Seq::<LineNo>::empty());
            assert(seq![tv, dv] =~= seq![tv] + seq![dv]);
            lemma_const_seq_concat(seq![tv], seq![dv]);
            lemma_const_seq_single(tv);
            lemma_const_seq_single(dv);
            assert(const_lnos(body@) =~= const_lnos(tv));
        }
        let cl = Expr::Ident(tmp.clone());
        let cr = Expr::NaturalNumber(UInt::zero());
        assert(cl@ == SExpr::Ident(tmp@));
        assert(cr@ == SExpr::Num(0));
        let comp = Expr::Comparison { lhs: Box::new(cl), verb: ComparisonVerb::NotEqual, rhs: Box::new(cr) };
        let ghost cv = SExpr::Comparison { lhs: Box::new(SExpr::Ident(tmp@)), verb: ComparisonVerb::NotEqual, rhs: Box::new(SExpr::Num(0)) };
        assert(comp@ == cv);
        let w = Expr::Control(Control::While { lno, comp: Box::new(comp), terms: Box::new(body) });
        assert(w@ == SExpr::Control(SControl::While { lno, comp: Box::new(cv), terms: Box::new(body@) }));
        proof {
            assert(const_lnos(cv) =~= Seq::<LineNo>::empty());
            assert(const_lnos(w@) =~= const_lnos(tv));
            assert(const_lnos(copy@) =~= Seq::<LineNo>::empty());
            assert(seq![copy@, w@] =~= seq![copy@] + seq![w@]);
            lemma_const_seq_concat(seq![copy@], seq![w@]);
            lemma_const_seq_single(copy@);
            lemma_const_seq_single(w@);
        }
        let res = pair(copy, w, Ghost(context.flags));
        assert(const_lnos(res@) =~= const_lnos(tv));
        Ok(res)
    }
}

/// A lowered LOOP over `ident` with the lowered body `terms`: the errors of the body, and
/// an error when neither `LOOP` nor `WHILE` is set.
pub(crate) fn loop_stmt(context: &mut CompileContext, lno: LineNo, ident: &String, terms: StdResult<Expr>) -> (r: StdResult<Expr>)
    requires
        lowered(terms, old(context).flags),
    ensures
        old(context).flags.spec_contains(LOOP) ==> final(context).counter() == old(context).counter(),
        lowered(r, old(context).flags),
        keeps(*old(context), *final(context)),
        r is Err <==> (terms is Err || !old(context).flags.spec_intersects(LOOP_AND_WHILE)
            || (!old(context).flags.spec_contains(LOOP) && old(context).flags.spec_contains(STRCT_NO_MACRO))),
        r matches Ok(e) ==> const_lnos(e@) == const_lnos(terms->Ok_0@),
        old(context).flags.spec_contains(LOOP) ==> (r matches Ok(e) ==> e@ == SExpr::Control(SControl::Loop {
            lno,
            ident: Box::new(SExpr::Ident(ident@)),
            terms: Box::new(terms->Ok_0@),
        })),
        terms matches Err(es) ==> (lw(old(context).flags) ==> (r matches Err(x) && x@ == es@)),
        !lw(old(context).flags) ==> (r matches Err(x) && x@.len() > 0 && x@.drop_last() == (match terms {
            Ok(_) => Seq::<Error>::empty(),
            Err(es) => es@,
        }) && x@.last().lno == lno && (x@.last().variant matches ErrorVariant::Message(m)
            && m@ == "Cannot use LOOP if LOOP and WHILE are not enabled!"@)),
        terms is Ok && lw(old(context).flags) && !old(context).flags.spec_contains(LOOP)
            && old(context).flags.spec_contains(STRCT_NO_MACRO) ==> (r matches Err(x) && x@.len() == 1
            && is_strict_error(x@[0], lno, StrictModeViolation::MacroForbidden)),
        terms is Ok && !old(context).flags.spec_contains(LOOP) && old(context).flags.spec_contains(WHILE)
            && !old(context).flags.spec_contains(STRCT_NO_MACRO) ==> (r matches Ok(e)
            && e@ == counted_while(lno, ident@, terms->Ok_0@, private_name(old(context).counter()))),
        final(context).modules == old(context).modules,
{
    let mut maybe: Vec<StdResult<Expr>> = Vec::new();
    maybe.push(Ok(Expr::Ident(ident.clone())));
    maybe.push(terms);
    if !context.flags.intersects(LOOP_AND_WHILE) {
        let mut es: Vec<Error> = Vec::new();
        es.push(Error::new_from_msg(Some(lno), "Cannot use LOOP if LOOP and WHILE are not enabled!"));
        maybe.push(Err(es));
    }
    let ghost m = maybe@;
    proof {
        lemma_check_errors_ok(m);
        reveal_with_fuel(spec_check_errors, 4);
        assert(seq![m[0]].drop_last() =~= Seq::<StdResult<Expr>>::empty());
        if !context.flags.spec_intersects(LOOP_AND_WHILE) {
            assert(m[2] is Err);
            assert(m.drop_last() =~= seq![m[0], m[1]]);
            assert(m.drop_last().drop_last() =~= seq![m[0]]);
        } else {
            assert(m =~= seq![m[0], m[1]]);
            assert(m.drop_last() =~= seq![m[0]]);
        }
        let b = context.flags.bits;
        assert(b & 2u16 == 2u16 ==> b & 3u16 != 0u16) by (bit_vector);
        if terms is Err {
            assert(m[1] is Err);
        }
    }
    match check_errors(maybe) {
        Ok(parts) => {
            proof {
                assert(m[1] == Ok::<Expr, Vec<Error>>(parts@[1]));
            }
            let mut parts = parts;
            let body = parts.remove(1);
            build_loop(context, lno, ident, body)
        },
        Err(es) => Err(es),
    }
}

/// The name of the constant variable.
fn zero_name() -> (r: String)
    ensures
        r@ == const_ident(),
{
    String::from_str("_zero")
}

/// A compiled list of one lowered statement: its errors, or the checked and flattened list.
fn finish_one(context: &CompileContext, stmt: StdResult<Expr>) -> (r: StdResult<Expr>)
    requires
        lowered(stmt, context.flags),
    ensures
        lowered(r, context.flags),
        const_clean(r, context.flags),
        r is Err <==> (stmt is Err || (cst(context.flags) && has_const(stmt))),
        r matches Ok(e) ==> e@ == spec_flatten(slist(seq![stmt->Ok_0@])),
{
    match stmt {
        Ok(e) => {
            let t = single(e, Ghost(context.flags));
            proof {
                lemma_const_seq_single(e@);
            }
            finish(t, context)
        },
        Err(es) => Err(es),
    }
}

/// A compiled list of two lowered statements: the errors of both, or the checked and
/// flattened list.
fn finish_two(context: &CompileContext, a: StdResult<Expr>, b: StdResult<Expr>) -> (r: StdResult<Expr>)
    requires
        lowered(a, context.flags),
        lowered(b, context.flags),
    ensures
        lowered(r, context.flags),
        const_clean(r, context.flags),
        r is Err <==> (a is Err || b is Err || (cst(context.flags) && (has_const(a) || has_const(b)))),
        r matches Ok(e) ==> e@ == spec_flatten(slist(seq![a->Ok_0@, b->Ok_0@])),
{
    let mut maybe: Vec<StdResult<Expr>> = Vec::new();
    maybe.push(a);
    maybe.push(b);
    let ghost m = maybe@;
    assert(m[0] == a && m[1] == b);
    proof {
        if a is Err {
            assert(m[0] is Err);
        }
        if b is Err {
            assert(m[1] is Err);
        }
    }
    match terms_of(maybe, Ghost(context.flags)) {
        Ok(t) => {
            proof {
                let sq = Seq::new(m.len(), |i: int| m[i]->Ok_0@);
                assert(sq =~= seq![a->Ok_0@, b->Ok_0@]);
                assert(seq![a->Ok_0@, b->Ok_0@] =~= seq![a->Ok_0@] + seq![b->Ok_0@]);
                lemma_const_seq_concat(seq![a->Ok_0@], seq![b->Ok_0@]);
                lemma_const_seq_single(a->Ok_0@);
                lemma_const_seq_single(b->Ok_0@);
            }
            finish(t, context)
        },
        Err(es) => Err(es),
    }
}

/// `x := 0` expands to `x := _zero + 0` with `OPT_ZERO`, else to
/// `LOOP x DO x := x - 1 END`.
pub(crate) fn expand_assign_to_zero(context: &mut CompileContext, lno: LineNo, x: &String) -> (r: StdResult<Expr>)
    requires
        !old(context).flags.spec_contains(STRCT_NO_MACRO),
    ensures
        old(context).flags.spec_contains(LOOP) ==> final(context).counter() == old(context).counter(),
        lowered(r, old(context).flags),
        keeps(*old(context), *final(context)),
        const_clean(r, old(context).flags),
        r is Err <==> ((!opt(old(context).flags) && !lw(old(context).flags)) || (cst(old(context).flags) && x@ == const_ident())),
        r matches Ok(e) ==> (opt(old(context).flags) ==> e@ == copy_program(lno, x@, const_ident())),
        r matches Ok(e) ==> (!opt(old(context).flags) && old(context).flags.spec_contains(LOOP) ==> e@ == zero_program(lno, x@)),
        r matches Ok(e) ==> (!opt(old(context).flags) && !old(context).flags.spec_contains(LOOP)
            ==> e@ == zero_while(lno, x@, old(context).counter())),
        final(context).modules == old(context).modules,
{
    proof {
        lemma_opt_cst(context.flags);
        lemma_programs_flat(lno, x@, x@, 0);
    }
    if context.flags.contains(OPT_ZERO) {
        let z = zero_name();
        expand_assign_to_ident(context, lno, x, &z)
    } else {
        let dec = plain_assign(lno, x, x, OperatorVerb::Minus, UInt::one());
        let body = single(dec, Ghost(context.flags));
        proof {
            lemma_const_seq_single(dec@);
        }
        let ghost k = context.counter();
        proof {
            assert(body@ == slist(seq![sassign(lno, x@, x@, OperatorVerb::Minus, 1)]));
        }
        let l = loop_stmt(context, lno, x, Ok(body));
        proof {
            if l is Ok && !context.flags.spec_contains(LOOP) {
                let b = context.flags.bits;
                assert(b & 0x0003u16 != 0 && b & 0x0001u16 != 0x0001u16 ==> b & 0x0002u16 == 0x0002u16) by (bit_vector);
                assert(context.flags.spec_contains(WHILE));
                assert(l->Ok_0@ == counted_while(lno, x@, body@, private_name(k)));
            }
        }
        finish_one(context, l)
    }
}

/// With the dedicated zero variable, constant variables are on.
proof fn lemma_opt_cst(flags: CompileFlags)
    ensures
        opt(flags) ==> cst(flags),
{
    let b = flags.bits;
    assert(b & 0x120u16 == 0x120u16 ==> b & 0x20u16 == 0x20u16) by (bit_vector);
}

/// `x := n` expands to `x := _zero + n` with `OPT_ZERO`, else to `x := 0` followed by
/// `x := x + n`.
pub(crate) fn expand_assign_to_value(context: &mut CompileContext, lno: LineNo, x: &String, n: &UInt) -> (r: StdResult<Expr>)
    requires
        !old(context).flags.spec_contains(STRCT_NO_MACRO),
    ensures
        old(context).flags.spec_contains(LOOP) ==> final(context).counter() == old(context).counter(),
        lowered(r, old(context).flags),
        keeps(*old(context), *final(context)),
        const_clean(r, old(context).flags),
        r is Err <==> ((!opt(old(context).flags) && !lw(old(context).flags)) || (cst(old(context).flags) && x@ == const_ident())),
        r matches Ok(e) ==> (opt(old(context).flags) ==> e@ == value_from_zero(lno, x@, n@)),
        r matches Ok(e) ==> (!opt(old(context).flags) && old(context).flags.spec_contains(LOOP) ==> e@ == value_program(lno, x@, n@)),
        r matches Ok(e) ==> (!opt(old(context).flags) && !old(context).flags.spec_contains(LOOP)
            ==> e@ == value_while(lno, x@, n@, old(context).counter())),
        final(context).modules == old(context).modules,
{
    proof {
        lemma_opt_cst(context.flags);
        lemma_programs_flat(lno, x@, x@, n@);
    }
    if context.flags.contains(OPT_ZERO) {
        let z = zero_name();
        let a = plain_assign(lno, x, &z, OperatorVerb::Plus, n.clone());
        finish_one(context, Ok(a))
    } else {
        let zero = expand_assign_to_zero(context, lno, x);
        let add = plain_assign(lno, x, x, OperatorVerb::Plus, n.clone());
        finish_two(context, zero, Ok(add))
    }
}

/// What `x := n` expands to with the zero variable or `LOOP`.
pub open spec fn number_program(lno: LineNo, x: Seq<char>, n: nat, flags: CompileFlags) -> SExpr {
    if n == 0 {
        if opt(flags) { copy_program(lno, x, const_ident()) } else { zero_program(lno, x) }
    } else {
        if opt(flags) { value_from_zero(lno, x, n) } else { value_program(lno, x, n) }
    }
}

/// `x := n`: the zero macro for `0`, the value macro otherwise.
pub(crate) fn expand_assign_number(context: &mut CompileContext, lno: LineNo, x: &String, n: &UInt) -> (r: StdResult<Expr>)
    requires
        !old(context).flags.spec_contains(STRCT_NO_MACRO),
    ensures
        old(context).flags.spec_contains(LOOP) ==> final(context).counter() == old(context).counter(),
        lowered(r, old(context).flags),
        keeps(*old(context), *final(context)),
        const_clean(r, old(context).flags),
        r is Err <==> ((!opt(old(context).flags) && !lw(old(context).flags)) || (cst(old(context).flags) && x@ == const_ident())),
        r matches Ok(e) ==> (opt(old(context).flags) || old(context).flags.spec_contains(LOOP)
            ==> e@ == number_program(lno, x@, n@, old(context).flags)),
        final(context).modules == old(context).modules,
{
    if n.is_zero() {
        expand_assign_to_zero(context, lno, x)
    } else {
        expand_assign_to_value(context, lno, x, n)
    }
}

/// `x := y + z` (`x := y - z`) expands to `x := y` followed by
/// `LOOP z DO x := x + 1 END` (`x := x - 1`); `x := y * z` expands to `x := 0` followed by
/// `LOOP y DO x := x + z END`.
pub(crate) fn expand_assign_binop_ident(context: &mut CompileContext, lno: LineNo, x: &String, y: &String, verb: OperatorVerb,
    z: &String) -> (r: StdResult<Expr>)
    requires
        !old(context).flags.spec_contains(STRCT_NO_MACRO),
    ensures
        old(context).flags.spec_contains(LOOP) ==> final(context).counter() == old(context).counter(),
        lowered(r, old(context).flags),
        keeps(*old(context), *final(context)),
        const_clean(r, old(context).flags),
        r is Err <==> (!lw(old(context).flags) || (cst(old(context).flags) && x@ == const_ident())),
        r matches Ok(e) ==> (old(context).flags.spec_contains(LOOP) && verb != OperatorVerb::Multiply
            ==> e@ == add_program(lno, x@, y@, verb, z@)),
        r matches Ok(e) ==> (old(context).flags.spec_contains(LOOP) && verb == OperatorVerb::Multiply
            && !opt(old(context).flags) ==> e@ == mul_program(lno, x@, y@, z@)),
        r matches Ok(e) ==> (old(context).flags.spec_contains(LOOP) && verb == OperatorVerb::Multiply
            && opt(old(context).flags) ==> e@ == mul_from_zero(lno, x@, y@, z@)),
        r matches Ok(e) ==> (!old(context).flags.spec_contains(LOOP) && verb != OperatorVerb::Multiply
            ==> e@ == add_while(lno, x@, y@, verb, z@, old(context).counter())),
    decreases (if verb == OperatorVerb::Multiply { 1nat } else { 0nat }),
{
    proof {
        lemma_opt_cst(context.flags);
        lemma_binop_programs_flat(lno, x@, y@, verb, z@);
        lemma_binop_programs_flat(lno, x@, y@, OperatorVerb::Plus, z@);
    }
    if verb == OperatorVerb::Multiply {
        let zero = expand_assign_to_zero(context, lno, x);
        let add = expand_assign_binop_ident(context, lno, x, x, OperatorVerb::Plus, z);
        let body = match add {
            Ok(a) => {
                let b = single(a, Ghost(context.flags));
                proof {
                    lemma_const_seq_single(a@);
                }
                Ok(b)
            },
            Err(es) => Err(es),
        };
        let l = loop_stmt(context, lno, y, body);
        finish_two(context, zero, l)
    } else {
        let copy = expand_assign_to_ident(context, lno, x, y);
        let step = plain_assign(lno, x, x, verb, UInt::one());
        let body = single(step, Ghost(context.flags));
        proof {
            lemma_const_seq_single(step@);
        }
        let ghost k = context.counter();
        let l = loop_stmt(context, lno, z, Ok(body));
        proof {
            if l is Ok && !context.flags.spec_contains(LOOP) {
                let b = context.flags.bits;
                assert(b & 0x0003u16 != 0 && b & 0x0001u16 != 0x0001u16 ==> b & 0x0002u16 == 0x0002u16) by (bit_vector);
                assert(context.flags.spec_contains(WHILE));
                assert(body@ == slist(seq![sassign(lno, x@, x@, verb, 1)]));
                assert(l->Ok_0@ == counted_while(lno, z@, body@, private_name(k)));
            }
        }
        finish_two(context, copy, l)
    }
}

/// `x := y * n` expands to `_k := n` followed by `x := y * _k`, for a fresh private `_k`.
pub(crate) fn expand_assign_mul_value(context: &mut CompileContext, lno: LineNo, x: &String, y: &String, n: &UInt) -> (r: StdResult<Expr>)
    requires
        !old(context).flags.spec_contains(STRCT_NO_MACRO),
    ensures
        lowered(r, old(context).flags),
        keeps(*old(context), *final(context)),
        const_clean(r, old(context).flags),
        r is Err <==> (!lw(old(context).flags) || (cst(old(context).flags) && x@ == const_ident())),
{
    let ghost c0 = context.counter();
    let tmp = context.priv_ident();
    proof {
        lemma_private_not_const(c0);
    }
    let value = expand_assign_number(context, lno, &tmp, n);
    let product = expand_assign_binop_ident(context, lno, x, y, OperatorVerb::Multiply, &tmp);
    finish_two(context, value, product)
}

// ---------------------------------------------------------------------------
// Renaming the variables of an inlined function

/// `e` with each variable `v` renamed to the inlined name of `v` for function `qual`,
/// inlined for the `count`-th time.
pub open spec fn renamed(e: SExpr, qual: (Seq<Seq<char>>, Seq<char>), count: nat) -> SExpr
    decreases e, 0nat,
{
    match e {
        SExpr::Ident(s) => SExpr::Ident(spec_prefix_ident(qual, count, s)),
        SExpr::Num(n) => SExpr::Num(n),
        SExpr::Comparison { lhs, verb, rhs } => SExpr::Comparison {
            lhs: Box::new(renamed(*lhs, qual, count)),
            verb,
            rhs: Box::new(renamed(*rhs, qual, count)),
        },
        SExpr::BinaryOp { lhs, verb, rhs } => SExpr::BinaryOp {
            lhs: Box::new(renamed(*lhs, qual, count)),
            verb,
            rhs: Box::new(renamed(*rhs, qual, count)),
        },
        SExpr::Assign { lno, lhs, rhs } => SExpr::Assign {
            lno,
            lhs: Box::new(renamed(*lhs, qual, count)),
            rhs: Box::new(renamed(*rhs, qual, count)),
        },
        SExpr::Control(SControl::Terms(ts)) => SExpr::Control(SControl::Terms(renamed_seq(ts, qual, count))),
        SExpr::Control(SControl::Loop { lno, ident, terms }) => SExpr::Control(
            SControl::Loop { lno, ident: Box::new(renamed(*ident, qual, count)), terms: Box::new(renamed(*terms, qual, count)) },
        ),
        SExpr::Control(SControl::While { lno, comp, terms }) => SExpr::Control(
            SControl::While { lno, comp: Box::new(renamed(*comp, qual, count)), terms: Box::new(renamed(*terms, qual, count)) },
        ),
    }
}

pub open spec fn renamed_seq(ts: Seq<SExpr>, qual: (Seq<Seq<char>>, Seq<char>), count: nat) -> Seq<SExpr>
    decreases ts, 0nat,
{
    Seq::new(ts.len(), |i: int| if 0 <= i < ts.len() { renamed(ts[i], qual, count) } else { SExpr::Num(0) })
}

/// The identifier `n` occurs in `e` (as a variable anywhere, conditions and loop counters
/// included).
pub open spec fn has_ident(e: SExpr, n: Seq<char>) -> bool
    decreases e, 0nat,
{
    match e {
        SExpr::Ident(s) => s == n,
        SExpr::Num(_) => false,
        SExpr::Comparison { lhs, rhs, .. } => has_ident(*lhs, n) || has_ident(*rhs, n),
        SExpr::BinaryOp { lhs, rhs, .. } => has_ident(*lhs, n) || has_ident(*rhs, n),
        SExpr::Assign { lhs, rhs, .. } => has_ident(*lhs, n) || has_ident(*rhs, n),
        SExpr::Control(SControl::Terms(ts)) => has_ident_seq(ts, n),
        SExpr::Control(SControl::Loop { ident, terms, .. }) => has_ident(*ident, n) || has_ident(*terms, n),
        SExpr::Control(SControl::While { comp, terms, .. }) => has_ident(*comp, n) || has_ident(*terms, n),
    }
}

/// The identifier `n` occurs in one of the statements `ts`.
pub open spec fn has_ident_seq(ts: Seq<SExpr>, n: Seq<char>) -> bool
    decreases ts, 0nat,
{
    if ts.len() == 0 {
        false
    } else {
        has_ident_seq(ts.drop_last(), n) || has_ident(ts.last(), n)
    }
}

/// Renaming for an inlining leaves no variable of the function under its own name: every
/// identifier of the renamed program is the inlined name of an identifier of the program,
/// and every identifier of the program occurs in the renamed one under its inlined name.
pub proof fn law_renamed_idents(e: SExpr, qual: (Seq<Seq<char>>, Seq<char>), count: nat, n: Seq<char>)
    ensures
        has_ident(renamed(e, qual, count), n) ==> exists|m: Seq<char>| #[trigger] has_ident(e, m)
            && n == spec_prefix_ident(qual, count, m),
        has_ident(e, n) ==> has_ident(renamed(e, qual, count), spec_prefix_ident(qual, count, n)),
    decreases e, 0nat,
{
    match e {
        SExpr::Ident(s) => {
            if has_ident(renamed(e, qual, count), n) {
                assert(has_ident(e, s));
            }
        },
        SExpr::Num(_) => {},
        SExpr::Comparison { lhs, rhs, .. } => {
            law_renamed_idents(*lhs, qual, count, n);
            law_renamed_idents(*rhs, qual, count, n);
            if has_ident(renamed(e, qual, count), n) {
                if has_ident(renamed(*lhs, qual, count), n) {
                    let m = choose|m: Seq<char>| #[trigger] has_ident(*lhs, m) && n == spec_prefix_ident(qual, count, m);
                    assert(has_ident(e, m));
                } else {
                    let m = choose|m: Seq<char>| #[trigger] has_ident(*rhs, m) && n == spec_prefix_ident(qual, count, m);
                    assert(has_ident(e, m));
                }
            }
        },
        SExpr::BinaryOp { lhs, rhs, .. } => {
            law_renamed_idents(*lhs, qual, count, n);
            law_renamed_idents(*rhs, qual, count, n);
            if has_ident(renamed(e, qual, count), n) {
                if has_ident(renamed(*lhs, qual, count), n) {
                    let m = choose|m: Seq<char>| #[trigger] has_ident(*lhs, m) && n == spec_prefix_ident(qual, count, m);
                    assert(has_ident(e, m));
                } else {
                    let m = choose|m: Seq<char>| #[trigger] has_ident(*rhs, m) && n == spec_prefix_ident(qual, count, m);
                    assert(has_ident(e, m));
                }
            }
        },
        SExpr::Assign { lhs, rhs, .. } => {
            law_renamed_idents(*lhs, qual, count, n);
            law_renamed_idents(*rhs, qual, count, n);
            if has_ident(renamed(e, qual, count), n) {
                if has_ident(renamed(*lhs, qual, count), n) {
                    let m = choose|m: Seq<char>| #[trigger] has_ident(*lhs, m) && n == spec_prefix_ident(qual, count, m);
                    assert(has_ident(e, m));
                } else {
                    let m = choose|m: Seq<char>| #[trigger] has_ident(*rhs, m) && n == spec_prefix_ident(qual, count, m);
                    assert(has_ident(e, m));
                }
            }
        },
        SExpr::Control(SControl::Terms(ts)) => {
            lemma_renamed_idents_seq(ts, qual, count, n);
            if has_ident(renamed(e, qual, count), n) {
                let m = choose|m: Seq<char>| #[trigger] has_ident_seq(ts, m) && n == spec_prefix_ident(qual, count, m);
                assert(has_ident(e, m));
            }
        },
        SExpr::Control(SControl::Loop { ident, terms, .. }) => {
            law_renamed_idents(*ident, qual, count, n);
            law_renamed_idents(*terms, qual, count, n);
            if has_ident(renamed(e, qual, count), n) {
                if has_ident(renamed(*ident, qual, count), n) {
                    let m = choose|m: Seq<char>| #[trigger] has_ident(*ident, m) && n == spec_prefix_ident(qual, count, m);
                    assert(has_ident(e, m));
                } else {
                    let m = choose|m: Seq<char>| #[trigger] has_ident(*terms, m) && n == spec_prefix_ident(qual, count, m);
                    assert(has_ident(e, m));
                }
            }
        },
        SExpr::Control(SControl::While { comp, terms, .. }) => {
            law_renamed_idents(*comp, qual, count, n);
            law_renamed_idents(*terms, qual, count, n);
            if has_ident(renamed(e, qual, count), n) {
                if has_ident(renamed(*comp, qual, count), n) {
                    let m = choose|m: Seq<char>| #[trigger] has_ident(*comp, m) && n == spec_prefix_ident(qual, count, m);
                    assert(has_ident(e, m));
                } else {
                    let m = choose|m: Seq<char>| #[trigger] has_ident(*terms, m) && n == spec_prefix_ident(qual, count, m);
                    assert(has_ident(e, m));
                }
            }
        },
    }
}

proof fn lemma_renamed_idents_seq(ts: Seq<SExpr>, qual: (Seq<Seq<char>>, Seq<char>), count: nat, n: Seq<char>)
    ensures
        has_ident_seq(renamed_seq(ts, qual, count), n) ==> exists|m: Seq<char>| #[trigger] has_ident_seq(ts, m)
            && n == spec_prefix_ident(qual, count, m),
        has_ident_seq(ts, n) ==> has_ident_seq(renamed_seq(ts, qual, count), spec_prefix_ident(qual, count, n)),
    decreases ts, 0nat,
{
    if ts.len() > 0 {
        let rs = renamed_seq(ts, qual, count);
        assert(rs.drop_last() =~= renamed_seq(ts.drop_last(), qual, count));
        assert(rs.last() == renamed(ts.last(), qual, count));
        lemma_renamed_idents_seq(ts.drop_last(), qual, count, n);
        law_renamed_idents(ts.last(), qual, count, n);
        if has_ident_seq(rs, n) {
            if has_ident_seq(rs.drop_last(), n) {
                let m = choose|m: Seq<char>| #[trigger] has_ident_seq(ts.drop_last(), m) && n == spec_prefix_ident(qual, count, m);
                assert(has_ident_seq(ts, m));
            } else {
                let m = choose|m: Seq<char>| #[trigger] has_ident(ts.last(), m) && n == spec_prefix_ident(qual, count, m);
                assert(has_ident_seq(ts, m));
            }
        }
    }
}

/// Renaming keeps a program runnable and in its language.
pub(crate) proof fn lemma_renamed(e: SExpr, qual: (Seq<Seq<char>>, Seq<char>), count: nat, flags: CompileFlags)
    ensures
        runnable(e) ==> runnable(renamed(e, qual, count)),
        mode_ok(e, flags) ==> mode_ok(renamed(e, qual, count), flags),
    decreases e, 0nat,
{
    match e {
        SExpr::Control(SControl::Terms(ts)) => {
            let rs = renamed_seq(ts, qual, count);
            if runnable(e) {
                assert(runnable_seq(ts));
                assert forall|i: int| 0 <= i < rs.len() implies runnable(#[trigger] rs[i]) by {
                    assert(runnable(ts[i]));
                    lemma_renamed(ts[i], qual, count, flags);
                }
                assert(runnable_seq(rs));
                assert(renamed(e, qual, count) == SExpr::Control(SControl::Terms(rs)));
                assert(runnable(SExpr::Control(SControl::Terms(rs))));
            }
            if mode_ok(e, flags) {
                assert(mode_ok_seq(ts, flags));
                assert forall|i: int| 0 <= i < rs.len() implies mode_ok(#[trigger] rs[i], flags) by {
                    assert(mode_ok(ts[i], flags));
                    lemma_renamed(ts[i], qual, count, flags);
                }
                assert(mode_ok_seq(rs, flags));
            }
        },
        SExpr::Control(SControl::Loop { ident, terms, .. }) => {
            lemma_renamed(*terms, qual, count, flags);
            lemma_renamed(*ident, qual, count, flags);
            if *ident is Ident {
                assert(renamed(*ident, qual, count) is Ident);
            }
        },
        SExpr::Control(SControl::While { comp, terms, .. }) => {
            lemma_renamed(*terms, qual, count, flags);
            match *comp {
                SExpr::Comparison { lhs: l, verb, rhs: r } => {
                    assert(renamed(*comp, qual, count) == SExpr::Comparison {
                        lhs: Box::new(renamed(*l, qual, count)),
                        verb,
                        rhs: Box::new(renamed(*r, qual, count)),
                    });
                },
                _ => {},
            }
        },
        SExpr::Assign { lhs, rhs, .. } => {
            if runnable(e) {
                assert(renamed(*lhs, qual, count) is Ident);
                match *rhs {
                    SExpr::BinaryOp { lhs: l, verb, rhs: r } => {
                        assert(renamed(*rhs, qual, count) == SExpr::BinaryOp {
                            lhs: Box::new(renamed(*l, qual, count)),
                            verb,
                            rhs: Box::new(renamed(*r, qual, count)),
                        });
                    },
                    _ => {},
                }
            }
        },
        _ => {},
    }
}

impl Expr {
    /// Renames each variable `v` of the program to its inlined name for the function
    /// `qual` inlined for the `count`-th time (see `prefix_ident`).
    pub fn prefix(&self, context: &CompileContext, qual: &FuncQualName, count: &usize) -> (r: Expr)
        ensures
            r@ == renamed(self@, qual@, *count as nat),
        decreases self,
    {
        match self {
            Expr::Ident(m) => Expr::Ident(prefix_ident(qual, count, m)),
            Expr::NaturalNumber(n) => Expr::NaturalNumber(n.clone()),
            Expr::Comparison { lhs, verb, rhs } => Expr::Comparison {
                lhs: Box::new(lhs.prefix(context, qual, count)),
                verb: *verb,
                rhs: Box::new(rhs.prefix(context, qual, count)),
            },
            Expr::BinaryOp { lhs, verb, rhs } => Expr::BinaryOp {
                lhs: Box::new(lhs.prefix(context, qual, count)),
                verb: *verb,
                rhs: Box::new(rhs.prefix(context, qual, count)),
            },
            Expr::Assign { lno, lhs, rhs } => Expr::Assign {
                lno: *lno,
                lhs: Box::new(lhs.prefix(context, qual, count)),
                rhs: Box::new(rhs.prefix(context, qual, count)),
            },
            Expr::Control(Control::Terms(v)) => {
                let c = prefix_all(v, context, qual, count);
                proof {
                    lemma_terms_view(*v);
                    lemma_terms_view(c);
                }
                Expr::Control(Control::Terms(c))
            },
            Expr::Control(Control::Loop { lno, ident, terms }) => Expr::Control(
                Control::Loop {
                    lno: *lno,
                    ident: Box::new(ident.prefix(context, qual, count)),
                    terms: Box::new(terms.prefix(context, qual, count)),
                },
            ),
            Expr::Control(Control::While { lno, comp, terms }) => Expr::Control(
                Control::While {
                    lno: *lno,
                    comp: Box::new(comp.prefix(context, qual, count)),
                    terms: Box::new(terms.prefix(context, qual, count)),
                },
            ),
        }
    }
}

fn prefix_all(v: &Vec<Expr>, context: &CompileContext, qual: &FuncQualName, count: &usize) -> (r: Vec<Expr>)
    ensures
        views(r@) == renamed_seq(views(v@), qual@, *count as nat),
    decreases v,
{
    let mut r: Vec<Expr> = Vec::new();
    let mut i: usize = 0;
    while i < v.len()
        invariant
            i <= v.len(),
            r@.len() == i,
            forall|j: int| 0 <= j < i ==> r@[j]@ == renamed(v@[j]@, qual@, *count as nat),
        decreases v.len() - i,
    {
        r.push(v[i].prefix(context, qual, count));
        i = i + 1;
    }
    assert(views(r@) =~= renamed_seq(views(v@), qual@, *count as nat));
    r
}

// ---------------------------------------------------------------------------
// Conditions

/// A side of a comparison: a number or a variable.
enum Side {
    Num(UInt),
    Var(String),
}

fn side_of(e: &Expr) -> (r: Side)
    requires
        e@ is Ident || e@ is Num,
    ensures
        match r {
            Side::Var(s) => e@ == SExpr::Ident(s@),
            Side::Num(n) => e@ == SExpr::Num(n@),
        },
{
    match e {
        Expr::Ident(s) => Side::Var(s.clone()),
        Expr::NaturalNumber(n) => Side::Num(n.clone()),
        _ => {
            proof {
                assert(false);
            }
            Side::Num(UInt::zero())
        },
    }
}

/// A list of two lowered statements (without the compile step).
fn terms_two(a: StdResult<Expr>, b: StdResult<Expr>, Ghost(flags): Ghost<CompileFlags>) -> (r: StdResult<Expr>)
    requires
        lowered(a, flags),
        lowered(b, flags),
    ensures
        lowered(r, flags),
        r is Err <==> (a is Err || b is Err),
        r matches Ok(e) ==> const_lnos(e@) == const_lnos(a->Ok_0@) + const_lnos(b->Ok_0@),
        r matches Ok(e) ==> e@ == slist(seq![a->Ok_0@, b->Ok_0@]),
{
    let mut maybe: Vec<StdResult<Expr>> = Vec::new();
    maybe.push(a);
    maybe.push(b);
    let ghost m = maybe@;
    assert(m[0] == a && m[1] == b);
    proof {
        if a is Err {
            assert(m[0] is Err);
        }
        if b is Err {
            assert(m[1] is Err);
        }
    }
    let r = terms_of(maybe, Ghost(flags));
    proof {
        if r is Ok {
            let sq = Seq::new(m.len(), |i: int| m[i]->Ok_0@);
            assert(sq =~= seq![a->Ok_0@] + seq![b->Ok_0@]);
            assert(sq =~= seq![a->Ok_0@, b->Ok_0@]);
            lemma_const_seq_concat(seq![a->Ok_0@], seq![b->Ok_0@]);
            lemma_const_seq_single(a->Ok_0@);
            lemma_const_seq_single(b->Ok_0@);
        }
    }
    r
}

/// A part of a condition's test: lowered, clean of the constant, and failing only without
/// LOOP and WHILE.
pub open spec fn test_part(r: StdResult<Expr>, flags: CompileFlags) -> bool {
    &&& lowered(r, flags)
    &&& const_clean(r, flags)
    &&& (r is Err ==> !lw(flags))
}

proof fn lemma_push_part(s: Seq<StdResult<Expr>>, e: StdResult<Expr>, flags: CompileFlags)
    requires
        forall|i: int| 0 <= i < s.len() ==> test_part(#[trigger] s[i], flags),
        test_part(e, flags),
    ensures
        forall|i: int| 0 <= i < s.push(e).len() ==> test_part(#[trigger] s.push(e)[i], flags),
{
    assert forall|i: int| 0 <= i < s.push(e).len() implies test_part(#[trigger] s.push(e)[i], flags) by {
        if i < s.len() {
            assert(s.push(e)[i] == s[i]);
        }
    }
}

/// The compiled list of the parts of a test, which fails exactly when its part `key` does.
fn finish_parts(context: &CompileContext, parts: Vec<StdResult<Expr>>, Ghost(key): Ghost<int>) -> (r: StdResult<Expr>)
    requires
        forall|i: int| 0 <= i < parts@.len() ==> test_part(#[trigger] parts@[i], context.flags),
        0 <= key < parts@.len(),
        parts@[key] is Err <==> !lw(context.flags),
    ensures
        test_part(r, context.flags),
        r is Err <==> !lw(context.flags),
        r matches Ok(e) ==> e@ == spec_flatten(slist(Seq::new(parts@.len(), |i: int| parts@[i]->Ok_0@))),
{
    let ghost m = parts@;
    proof {
        if !lw(context.flags) {
            assert(m[key] is Err);
        }
    }
    match terms_of(parts, Ghost(context.flags)) {
        Ok(t) => {
            proof {
                let sq = Seq::new(m.len(), |i: int| m[i]->Ok_0@);
                lemma_const_seq_any(sq);
                if cst(context.flags) {
                    assert forall|i: int| 0 <= i < sq.len() implies const_lnos(#[trigger] sq[i]).len() == 0 by {
                        assert(test_part(m[i], context.flags));
                    }
                }
                if !lw(context.flags) {
                    assert(m[key] is Err);
                }
            }
            finish(t, context)
        },
        Err(es) => {
            proof {
                let i = choose|i: int| 0 <= i < m.len() && (#[trigger] m[i]) is Err;
                assert(test_part(m[i], context.flags));
            }
            Err(es)
        },
    }
}

/// The private variables `gt_test` hands out before its three own ones: one for `x + 1`
/// (testing `x >= y` on a variable), one for a number on either side.
pub open spec fn gt_temps(ge: bool, x: SExpr, y: SExpr) -> nat {
    gt_xtemps(ge, x) + (if y is Num { 1nat } else { 0nat })
}

/// The private variables `gt_test` hands out for its left side.
pub open spec fn gt_xtemps(ge: bool, x: SExpr) -> nat {
    if (ge && x is Ident) || x is Num { 1nat } else { 0nat }
}

/// The variable `gt_test` compares on the left, from the private counter `c` at its start.
pub open spec fn gt_xname(ge: bool, x: SExpr, c: nat) -> Seq<char> {
    if (ge && x is Ident) || x is Num { private_name(c) } else { x->Ident_0 }
}

/// The variable `gt_test` compares on the right.
pub open spec fn gt_yname(ge: bool, x: SExpr, y: SExpr, c: nat) -> Seq<char> {
    if y is Num { private_name(c + gt_xtemps(ge, x)) } else { y->Ident_0 }
}

/// The statements of `gt_test` with LOOP, before the comparison proper: `t := x + 1`, or
/// `t := n` (`n + 1` for `>=`) for a number on the left, `t := m` for a number on the right.
pub open spec fn gt_pre(lno: LineNo, ge: bool, x: SExpr, y: SExpr, c: nat, flags: CompileFlags) -> Seq<SExpr> {
    let a: Seq<SExpr> = if ge && x is Ident {
        seq![sassign(lno, private_name(c), x->Ident_0, OperatorVerb::Plus, 1)]
    } else if x is Num {
        seq![number_program(lno, private_name(c), x->Num_0 + (if ge { 1nat } else { 0nat }), flags)]
    } else {
        seq![]
    };
    let b: Seq<SExpr> = if y is Num {
        seq![number_program(lno, gt_yname(ge, x, y, c), y->Num_0, flags)]
    } else {
        seq![]
    };
    a + b
}

/// The comparison proper, with `t1`, `t2`, `t3` the `k`-th to `k + 2`-th private
/// variables: `t1 := xn - yn`, `t2 := 0`, `t3 := 1`, `LOOP t1 DO t2 := 1 t3 := 0 END`.
pub open spec fn gt_core(lno: LineNo, xn: Seq<char>, yn: Seq<char>, k: nat, flags: CompileFlags) -> Seq<SExpr> {
    seq![
        add_program(lno, private_name(k), xn, OperatorVerb::Minus, yn),
        number_program(lno, private_name(k + 1), 0, flags),
        number_program(lno, private_name(k + 2), 1, flags),
        SExpr::Control(SControl::Loop {
            lno,
            ident: Box::new(SExpr::Ident(private_name(k))),
            terms: Box::new(slist(seq![number_program(lno, private_name(k + 1), 1, flags),
                number_program(lno, private_name(k + 2), 0, flags)])),
        }),
    ]
}

/// What `gt_test` compiles with LOOP, from the private counter `c` at its start.
pub open spec fn gt_program(lno: LineNo, ge: bool, x: SExpr, y: SExpr, c: nat, flags: CompileFlags) -> SExpr {
    let k = c + gt_temps(ge, x, y);
    spec_flatten(slist(gt_pre(lno, ge, x, y, c, flags) + gt_core(lno, gt_xname(ge, x, c), gt_yname(ge, x, y, c), k, flags)))
}

/// The test of `x > y` (of `x >= y` when `ge`): the compiled code that sets the returned
/// pair of private variables to 1, 0 when the test holds and to 0, 1 otherwise. It fails
/// exactly when neither LOOP nor WHILE is on.
#[verifier::rlimit(80)]
pub(crate) fn gt_test(context: &mut CompileContext, lno: LineNo, ge: bool, x: &Expr, y: &Expr) -> (r: (StdResult<Expr>, String, String))
    requires
        x@ is Ident || x@ is Num,
        y@ is Ident || y@ is Num,
        !old(context).flags.spec_contains(STRCT_NO_MACRO),
    ensures
        keeps(*old(context), *final(context)),
        test_part(r.0, old(context).flags),
        r.0 is Err <==> !lw(old(context).flags),
        old(context).flags.spec_contains(LOOP) && old(context).counter() + 6 < usize::MAX ==> (r.0 matches Ok(e)
            && e@ == gt_program(lno, ge, x@, y@, old(context).counter(), old(context).flags)
            && r.1@ == private_name(old(context).counter() + gt_temps(ge, x@, y@) + 1)
            && r.2@ == private_name(old(context).counter() + gt_temps(ge, x@, y@) + 2)
            && final(context).counter() == old(context).counter() + gt_temps(ge, x@, y@) + 3),
{
    let ghost flags = context.flags;
    let ghost c0 = context.counter();
    let ghost good = flags.spec_contains(LOOP) && c0 + 6 < usize::MAX;
    proof {
        let b = flags.bits;
        assert(b & 0x0001u16 == 0x0001u16 ==> b & 0x0003u16 != 0) by (bit_vector);
    }
    let mut lhs = side_of(x);
    let rhs = side_of(y);
    // `x >= y` is tested as `x + 1 > y`
    let mut succ: Option<(String, String)> = None;
    if ge {
        match lhs {
            Side::Num(n) => {
                lhs = Side::Num(n.add(&UInt::one()));
            },
            Side::Var(v) => {
                let ghost c = context.counter();
                let t = context.priv_ident();
                proof {
                    lemma_private_not_const(c);
                }
                succ = Some((t.clone(), v));
                lhs = Side::Var(t);
            },
        }
    }
    let mut lhs_value: Option<(String, UInt)> = None;
    let xname = match lhs {
        Side::Num(n) => {
            let ghost c = context.counter();
            let t = context.priv_ident();
            proof {
                lemma_private_not_const(c);
            }
            lhs_value = Some((t.clone(), n));
            t
        },
        Side::Var(v) => v,
    };
    let mut rhs_value: Option<(String, UInt)> = None;
    let yname = match rhs {
        Side::Num(n) => {
            let ghost c = context.counter();
            let t = context.priv_ident();
            proof {
                lemma_private_not_const(c);
            }
            rhs_value = Some((t.clone(), n));
            t
        },
        Side::Var(v) => v,
    };
    proof {
        if good {
            assert(context.counter() == c0 + gt_temps(ge, x@, y@));
            assert(xname@ == gt_xname(ge, x@, c0));
            assert(yname@ == gt_yname(ge, x@, y@, c0));
        }
    }
    let ghost c1 = context.counter();
    let t1 = context.priv_ident();
    let ghost c2 = context.counter();
    let t2 = context.priv_ident();
    let ghost c3 = context.counter();
    let t3 = context.priv_ident();
    proof {
        lemma_private_not_const(c1);
        lemma_private_not_const(c2);
        lemma_private_not_const(c3);
        lemma_opt_cst(flags);
    }

    let mut stmts: Vec<StdResult<Expr>> = Vec::new();
    let ghost mut exp: Seq<SExpr> = seq![];
    let ghost xn = xname@;
    let ghost yn = yname@;
    let ghost kk = c0 + gt_temps(ge, x@, y@);
    if let Some((t, v)) = succ {
        let a = plain_assign(lno, &t, &v, OperatorVerb::Plus, UInt::one());
        proof {
            lemma_push_part(stmts@, Ok(a), flags);
            if good {
                exp = exp.push(a@);
            }
        }
        stmts.push(Ok(a));
        proof {
            if good {
                assert(Seq::new(stmts@.len(), |i: int| stmts@[i]->Ok_0@) =~= exp);
            }
        }
    }
    if let Some((t, n)) = lhs_value {
        proof {
            if good {
                assert(t@ == xn);
                assert(xn == private_name(c0));
                lemma_private_not_const(c0);
            }
        }
        let e = expand_assign_number(context, lno, &t, &n);
        proof {
            lemma_push_part(stmts@, e, flags);
        }
        proof {
            if good {
                assert(e is Ok);
                exp = exp.push(e->Ok_0@);
            }
        }
        stmts.push(e);
        proof {
            if good {
                assert(Seq::new(stmts@.len(), |i: int| stmts@[i]->Ok_0@) =~= exp);
            }
        }
    }
    proof {
        if good {
            assert(exp =~= gt_pre(lno, ge, x@, y@, c0, flags).take(gt_xtemps(ge, x@) as int));
        }
    }
    if let Some((t, n)) = rhs_value {
        proof {
            if good {
                assert(t@ == yn);
                assert(yn == private_name(c0 + gt_xtemps(ge, x@)));
                lemma_private_not_const(c0 + gt_xtemps(ge, x@));
            }
        }
        let e = expand_assign_number(context, lno, &t, &n);
        proof {
            lemma_push_part(stmts@, e, flags);
        }
        proof {
            if good {
                assert(e is Ok);
                exp = exp.push(e->Ok_0@);
            }
        }
        stmts.push(e);
        proof {
            if good {
                assert(Seq::new(stmts@.len(), |i: int| stmts@[i]->Ok_0@) =~= exp);
            }
        }
    }
    proof {
        if good {
            assert(exp =~= gt_pre(lno, ge, x@, y@, c0, flags));
        }
    }
    let ghost key = stmts@.len() as int;
    let diff = expand_assign_binop_ident(context, lno, &t1, &xname, OperatorVerb::Minus, &yname);
    proof {
        lemma_push_part(stmts@, diff, flags);
    }
    proof {
            if good {
                assert(t1@ == private_name(c1));
                assert(t1@ != const_ident());
                assert(diff is Ok);
                exp = exp.push(diff->Ok_0@);
            }
        }
    stmts.push(diff);
    proof {
        if good {
            assert(Seq::new(stmts@.len(), |i: int| stmts@[i]->Ok_0@) =~= exp);
        }
    }
    let e = expand_assign_to_zero(context, lno, &t2);
    proof {
        lemma_push_part(stmts@, e, flags);
    }
        proof {
            if good {
                assert(e is Ok);
                exp = exp.push(e->Ok_0@);
            }
        }
    stmts.push(e);
    proof {
        if good {
            assert(Seq::new(stmts@.len(), |i: int| stmts@[i]->Ok_0@) =~= exp);
        }
    }
    let e = expand_assign_number(context, lno, &t3, &UInt::one());
    proof {
        lemma_push_part(stmts@, e, flags);
    }
        proof {
            if good {
                assert(e is Ok);
                exp = exp.push(e->Ok_0@);
            }
        }
    stmts.push(e);
    proof {
        if good {
            assert(Seq::new(stmts@.len(), |i: int| stmts@[i]->Ok_0@) =~= exp);
        }
    }
    let set = expand_assign_number(context, lno, &t2, &UInt::one());
    let clear = expand_assign_to_zero(context, lno, &t3);
    let body = terms_two(set, clear, Ghost(flags));
    let e = loop_stmt(context, lno, &t1, body);
    proof {
        lemma_push_part(stmts@, e, flags);
    }
        proof {
            if good {
                assert(e is Ok);
                exp = exp.push(e->Ok_0@);
            }
        }
    stmts.push(e);
    proof {
        if good {
            assert(Seq::new(stmts@.len(), |i: int| stmts@[i]->Ok_0@) =~= exp);
        }
    }
    proof {
        if good {
            assert(exp =~= gt_pre(lno, ge, x@, y@, c0, flags) + gt_core(lno, xn, yn, kk, flags));
        }
    }
    let test = finish_parts(context, stmts, Ghost(key));
    (test, t2, t3)
}

/// The private variables `nz_test` hands out before its flags: one for a number.
pub open spec fn nz_temps(x: SExpr) -> nat {
    if x is Num { 1nat } else { 0nat }
}

/// The statements of `nz_test` with LOOP, from the private counter `c` at its start:
/// `t := n` for a number, then `t1 := 0`, `t2 := 1` and `LOOP x DO t1 := 1 t2 := 0 END`
/// (over `t` for a number), with `t1`, `t2` the next two private variables.
pub open spec fn nz_parts(lno: LineNo, x: SExpr, c: nat, flags: CompileFlags) -> Seq<SExpr> {
    let k = c + nz_temps(x);
    let xn = if x is Num { private_name(c) } else { x->Ident_0 };
    let pre: Seq<SExpr> = if x is Num { seq![number_program(lno, private_name(c), x->Num_0, flags)] } else { seq![] };
    pre + seq![
        number_program(lno, private_name(k), 0, flags),
        number_program(lno, private_name(k + 1), 1, flags),
        SExpr::Control(SControl::Loop {
            lno,
            ident: Box::new(SExpr::Ident(xn)),
            terms: Box::new(slist(seq![number_program(lno, private_name(k), 1, flags),
                number_program(lno, private_name(k + 1), 0, flags)])),
        }),
    ]
}

/// What `nz_test` compiles with LOOP, from the private counter `c` at its start.
pub open spec fn nz_program(lno: LineNo, x: SExpr, c: nat, flags: CompileFlags) -> SExpr {
    spec_flatten(slist(nz_parts(lno, x, c, flags)))
}

/// The test of `x != 0`: the compiled code that sets the returned pair of private
/// variables to 1, 0 when the test holds and to 0, 1 otherwise. It fails exactly when
/// neither LOOP nor WHILE is on.
pub(crate) fn nz_test(context: &mut CompileContext, lno: LineNo, x: &Expr) -> (r: (StdResult<Expr>, String, String))
    requires
        x@ is Ident || x@ is Num,
        !old(context).flags.spec_contains(STRCT_NO_MACRO),
    ensures
        keeps(*old(context), *final(context)),
        test_part(r.0, old(context).flags),
        r.0 is Err <==> !lw(old(context).flags),
        old(context).flags.spec_contains(LOOP) && old(context).counter() + 6 < usize::MAX ==> (r.0 matches Ok(e)
            && e@ == nz_program(lno, x@, old(context).counter(), old(context).flags)
            && r.1@ == private_name(old(context).counter() + nz_temps(x@))
            && r.2@ == private_name(old(context).counter() + nz_temps(x@) + 1)
            && final(context).counter() == old(context).counter() + nz_temps(x@) + 2),
{
    let ghost flags = context.flags;
    let ghost c0 = context.counter();
    let ghost good = flags.spec_contains(LOOP) && c0 + 6 < usize::MAX;
    proof {
        let b = flags.bits;
        assert(b & 0x0001u16 == 0x0001u16 ==> b & 0x0003u16 != 0) by (bit_vector);
        lemma_private_not_const(c0);
    }
    let mut value: Option<(String, UInt)> = None;
    let ident = match side_of(x) {
        Side::Num(n) => {
            let ghost c = context.counter();
            let t = context.priv_ident();
            proof {
                lemma_private_not_const(c);
            }
            value = Some((t.clone(), n));
            t
        },
        Side::Var(v) => v,
    };
    let ghost c1 = context.counter();
    let t1 = context.priv_ident();
    let ghost c2 = context.counter();
    let t2 = context.priv_ident();
    proof {
        lemma_private_not_const(c1);
        lemma_private_not_const(c2);
        lemma_opt_cst(flags);
    }

    let ghost k = c0 + nz_temps(x@);
    proof {
        if good {
            assert(c1 == k && c2 == k + 1);
            assert(ident@ == (if x@ is Num { private_name(c0) } else { x@->Ident_0 }));
        }
    }
    let ghost parts = nz_parts(lno, x@, c0, flags);
    let ghost mut exp: Seq<SExpr> = seq![];
    assert(value is Some <==> x@ is Num);
    assert(value matches Some(p) ==> p.0@ == private_name(c0) && x@ == SExpr::Num(p.1@));
    let mut stmts: Vec<StdResult<Expr>> = Vec::new();
    if let Some((t, n)) = value {
        let e = expand_assign_number(context, lno, &t, &n);
        proof {
            lemma_push_part(stmts@, e, flags);
            if good {
                assert(e is Ok);
                exp = exp.push(e->Ok_0@);
            }
        }
        stmts.push(e);
    }
    proof {
        if good {
            assert(Seq::new(stmts@.len(), |i: int| stmts@[i]->Ok_0@) =~= exp);
            assert(exp =~= parts.take(nz_temps(x@) as int));
        }
    }
    let e = expand_assign_to_zero(context, lno, &t1);
    proof {
        lemma_push_part(stmts@, e, flags);
        if good {
            assert(e is Ok);
            exp = exp.push(e->Ok_0@);
        }
    }
    stmts.push(e);
    proof {
        if good {
            assert(Seq::new(stmts@.len(), |i: int| stmts@[i]->Ok_0@) =~= exp);
        }
    }
    let e = expand_assign_number(context, lno, &t2, &UInt::one());
    proof {
        lemma_push_part(stmts@, e, flags);
        if good {
            assert(e is Ok);
            exp = exp.push(e->Ok_0@);
        }
    }
    stmts.push(e);
    proof {
        if good {
            assert(Seq::new(stmts@.len(), |i: int| stmts@[i]->Ok_0@) =~= exp);
        }
    }
    let set = expand_assign_number(context, lno, &t1, &UInt::one());
    let clear = expand_assign_to_zero(context, lno, &t2);
    let body = terms_two(set, clear, Ghost(flags));
    let ghost key = stmts@.len() as int;
    let e = loop_stmt(context, lno, &ident, body);
    proof {
        lemma_push_part(stmts@, e, flags);
        if good {
            assert(set is Ok && clear is Ok);
            assert(e is Ok);
            exp = exp.push(e->Ok_0@);
        }
    }
    stmts.push(e);
    proof {
        if good {
            assert(Seq::new(stmts@.len(), |i: int| stmts@[i]->Ok_0@) =~= exp);
            assert(exp =~= parts);
        }
    }
    let test = finish_parts(context, stmts, Ghost(key));
    (test, t1, t2)
}

// ---------------------------------------------------------------------------
// Assignments of a function call

/// The compiled assignment `x := y`, refused in strict mode without macros.
pub fn call_assign_ident(context: &CompileContext, lno: LineNo, x: &String, y: &String) -> (r: StdResult<Expr>)
    ensures
        lowered(r, context.flags),
        context.flags.spec_contains(STRCT_NO_MACRO) ==> (r matches Err(es) && es@.len() == 1
            && is_strict_error(es@[0], lno, StrictModeViolation::MacroForbidden)),
        r is Ok <==> !context.flags.spec_contains(STRCT_NO_MACRO) && !(cst(context.flags) && x@ == const_ident()),
        r matches Ok(e) ==> e@ == spec_flatten(slist(seq![copy_program(lno, x@, y@)])),
{
    if context.flags.contains(STRCT_NO_MACRO) {
        let mut es: Vec<Error> = Vec::new();
        es.push(Error::new_from_code(Some(lno), ErrorCode::StrictModeViolation { violation: StrictModeViolation::MacroForbidden }));
        return Err(es);
    }
    let a = expand_assign_to_ident(context, lno, x, y);
    finish_one(context, a)
}

/// The compiled assignment `x := n`, refused in strict mode without macros.
pub fn call_assign_number(context: &mut CompileContext, lno: LineNo, x: &String, n: &UInt) -> (r: StdResult<Expr>)
    ensures
        lowered(r, old(context).flags),
        keeps(*old(context), *final(context)),
        old(context).flags.spec_contains(STRCT_NO_MACRO) ==> (r matches Err(es) && es@.len() == 1
            && is_strict_error(es@[0], lno, StrictModeViolation::MacroForbidden)),
        r is Ok <==> !old(context).flags.spec_contains(STRCT_NO_MACRO) && (opt(old(context).flags) || lw(old(context).flags))
            && !(cst(old(context).flags) && x@ == const_ident()),
        r matches Ok(e) ==> (opt(old(context).flags) || old(context).flags.spec_contains(LOOP)
            ==> e@ == spec_flatten(slist(seq![number_program(lno, x@, n@, old(context).flags)]))),
        final(context).modules == old(context).modules,
{
    if context.flags.contains(STRCT_NO_MACRO) {
        let mut es: Vec<Error> = Vec::new();
        es.push(Error::new_from_code(Some(lno), ErrorCode::StrictModeViolation { violation: StrictModeViolation::MacroForbidden }));
        return Err(es);
    }
    let a = expand_assign_number(context, lno, x, n);
    finish_one(context, a)
}

} // verus!
