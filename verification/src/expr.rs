use vstd::prelude::*;
use crate::uint::{UInt, decimal_string};
use crate::verbs::{ComparisonVerb, OperatorVerb, comparison_verb_text, operator_verb_text};
use crate::flags::{CompileFlags, LOOP, WHILE};

verus! {

broadcast use vstd::std_specs::vec::axiom_vec_index_decreases;

/// The first and last source line of a statement.
pub type LineNo = (usize, usize);

/// Control structures, over the node type of the representation they belong to.
#[derive(Debug)]
pub enum Control<TNode> {
    Terms(Vec<TNode>),
    Loop { lno: LineNo, ident: Box<TNode>, terms: Box<TNode> },
    While { lno: LineNo, comp: Box<TNode>, terms: Box<TNode> },
}

/// A program of the core LOOP/WHILE language.
#[allow(inconsistent_fields)]
#[derive(Debug)]
pub enum Expr {
    Ident(String),
    NaturalNumber(UInt),
    Comparison { lhs: Box<Expr>, verb: ComparisonVerb, rhs: Box<Expr> },
    BinaryOp { lhs: Box<Expr>, verb: OperatorVerb, rhs: Box<Expr> },
    Assign { lno: LineNo, lhs: Box<Expr>, rhs: Box<Expr> },
    Control(Control<Expr>),
}

/// The mathematical model of a control structure.
pub enum SControl<T> {
    Terms(Seq<T>),
    Loop { lno: LineNo, ident: Box<T>, terms: Box<T> },
    While { lno: LineNo, comp: Box<T>, terms: Box<T> },
}

/// The mathematical model of an `Expr`: identifiers as character sequences, numbers as naturals.
#[allow(inconsistent_fields)]
pub enum SExpr {
    Ident(Seq<char>),
    Num(nat),
    Comparison { lhs: Box<SExpr>, verb: ComparisonVerb, rhs: Box<SExpr> },
    BinaryOp { lhs: Box<SExpr>, verb: OperatorVerb, rhs: Box<SExpr> },
    Assign { lno: LineNo, lhs: Box<SExpr>, rhs: Box<SExpr> },
    Control(SControl<SExpr>),
}

pub open spec fn view_expr(e: Expr) -> SExpr
    decreases e,
{
    match e {
        Expr::Ident(s) => SExpr::Ident(s@),
        Expr::NaturalNumber(n) => SExpr::Num(n@),
        Expr::Comparison { lhs, verb, rhs } => SExpr::Comparison {
            lhs: Box::new(view_expr(*lhs)),
            verb,
            rhs: Box::new(view_expr(*rhs)),
        },
        Expr::BinaryOp { lhs, verb, rhs } => SExpr::BinaryOp {
            lhs: Box::new(view_expr(*lhs)),
            verb,
            rhs: Box::new(view_expr(*rhs)),
        },
        Expr::Assign { lno, lhs, rhs } => SExpr::Assign {
            lno,
            lhs: Box::new(view_expr(*lhs)),
            rhs: Box::new(view_expr(*rhs)),
        },
        Expr::Control(Control::Terms(v)) => SExpr::Control(
            SControl::Terms(
                Seq::new(
                    v.len() as nat,
                    |i: int|
                        if 0 <= i < v.len() {
                            view_expr(v[i])
                        } else {
                            SExpr::Num(0)
                        },
                ),
            ),
        ),
        Expr::Control(Control::Loop { lno, ident, terms }) => SExpr::Control(
            SControl::Loop { lno, ident: Box::new(view_expr(*ident)), terms: Box::new(view_expr(*terms)) },
        ),
        Expr::Control(Control::While { lno, comp, terms }) => SExpr::Control(
            SControl::While { lno, comp: Box::new(view_expr(*comp)), terms: Box::new(view_expr(*terms)) },
        ),
    }
}

impl View for Expr {
    type V = SExpr;

    open spec fn view(&self) -> SExpr {
        view_expr(*self)
    }
}

/// The models of a sequence of expressions.
pub open spec fn views(s: Seq<Expr>) -> Seq<SExpr> {
    Seq::new(s.len(), |i: int| s[i]@)
}

/// The model of a statement list is the list of the models of its statements.
pub proof fn lemma_terms_view(v: Vec<Expr>)
    ensures
        view_expr(Expr::Control(Control::Terms(v))) == SExpr::Control(SControl::Terms(views(v@))),
{
    assert(view_expr(Expr::Control(Control::Terms(v)))->Control_0->Terms_0 =~= views(v@));
}

/// A copy of an expression.
pub fn clone_expr(e: &Expr) -> (r: Expr)
    ensures
        r@ == e@,
    decreases e,
{
    match e {
        Expr::Ident(s) => Expr::Ident(s.clone()),
        Expr::NaturalNumber(n) => Expr::NaturalNumber(n.clone()),
        Expr::Comparison { lhs, verb, rhs } => Expr::Comparison {
            lhs: Box::new(clone_expr(lhs)),
            verb: *verb,
            rhs: Box::new(clone_expr(rhs)),
        },
        Expr::BinaryOp { lhs, verb, rhs } => Expr::BinaryOp {
            lhs: Box::new(clone_expr(lhs)),
            verb: *verb,
            rhs: Box::new(clone_expr(rhs)),
        },
        Expr::Assign { lno, lhs, rhs } => Expr::Assign {
            lno: *lno,
            lhs: Box::new(clone_expr(lhs)),
            rhs: Box::new(clone_expr(rhs)),
        },
        Expr::Control(Control::Terms(v)) => {
            let c = clone_exprs(v);
            proof {
                lemma_terms_view(*v);
                lemma_terms_view(c);
            }
            Expr::Control(Control::Terms(c))
        },
        Expr::Control(Control::Loop { lno, ident, terms }) => Expr::Control(
            Control::Loop { lno: *lno, ident: Box::new(clone_expr(ident)), terms: Box::new(clone_expr(terms)) },
        ),
        Expr::Control(Control::While { lno, comp, terms }) => Expr::Control(
            Control::While { lno: *lno, comp: Box::new(clone_expr(comp)), terms: Box::new(clone_expr(terms)) },
        ),
    }
}

/// A copy of a vector of expressions.
pub fn clone_exprs(v: &Vec<Expr>) -> (r: Vec<Expr>)
    ensures
        views(r@) == views(v@),
    decreases v,
{
    let mut r: Vec<Expr> = Vec::new();
    let mut i: usize = 0;
    while i < v.len()
        invariant
            i <= v.len(),
            r@.len() == i,
            forall|j: int| 0 <= j < i ==> r@[j]@ == v@[j]@,
        decreases v.len() - i,
    {
        r.push(clone_expr(&v[i]));
        i = i + 1;
    }
    assert(views(r@) =~= views(v@));
    r
}

impl Clone for Expr {
    fn clone(&self) -> (r: Self)
        ensures
            r@ == self@,
    {
        clone_expr(self)
    }
}

// ---------------------------------------------------------------------------
// Flattening

/// Removes the nesting of statement lists inside statement lists.
pub open spec fn spec_flatten(e: SExpr) -> SExpr
    decreases e, 0nat,
{
    match e {
        SExpr::Control(SControl::Terms(ts)) => SExpr::Control(SControl::Terms(flatten_seq(ts))),
        SExpr::Control(SControl::Loop { lno, ident, terms }) => SExpr::Control(
            SControl::Loop { lno, ident, terms: Box::new(spec_flatten(*terms)) },
        ),
        SExpr::Control(SControl::While { lno, comp, terms }) => SExpr::Control(
            SControl::While { lno, comp, terms: Box::new(spec_flatten(*terms)) },
        ),
        _ => e,
    }
}

/// The flattened statements of a statement list.
pub open spec fn flatten_seq(ts: Seq<SExpr>) -> Seq<SExpr>
    decreases ts, 0nat,
{
    if ts.len() == 0 {
        seq![]
    } else {
        flatten_seq(ts.drop_last()) + flatten_node(ts.last())
    }
}

/// The statements that one statement of a list is flattened into: the flattened
/// items of each of its items when it is itself a list, else the statement flattened.
pub open spec fn flatten_node(node: SExpr) -> Seq<SExpr>
    decreases node, 1nat,
{
    match node {
        SExpr::Control(SControl::Terms(t)) => flatten_pieces(t),
        _ => seq![spec_flatten(node)],
    }
}

/// The items of a nested list, each flattened and unwrapped when it is a list.
pub open spec fn flatten_pieces(t: Seq<SExpr>) -> Seq<SExpr>
    decreases t, 0nat,
{
    if t.len() == 0 {
        seq![]
    } else {
        flatten_pieces(t.drop_last()) + unwrap_terms(spec_flatten(t.last()))
    }
}

/// The items of a statement list, or the statement itself.
pub open spec fn unwrap_terms(f: SExpr) -> Seq<SExpr> {
    match f {
        SExpr::Control(SControl::Terms(t)) => t,
        _ => seq![f],
    }
}

/// No statement list stands directly inside a statement list, at any depth.
pub open spec fn is_flat(e: SExpr) -> bool
    decreases e,
{
    match e {
        SExpr::Control(SControl::Terms(ts)) => forall|i: int|
            0 <= i < ts.len() ==> !(#[trigger] ts[i] is Control && ts[i]->Control_0 is Terms) && is_flat(ts[i]),
        SExpr::Control(SControl::Loop { terms, .. }) => is_flat(*terms),
        SExpr::Control(SControl::While { terms, .. }) => is_flat(*terms),
        _ => true,
    }
}

/// Every item of the list is flat and is not itself a statement list.
pub open spec fn flat_items(s: Seq<SExpr>) -> bool {
    forall|i: int| 0 <= i < s.len() ==> !(#[trigger] s[i] is Control && s[i]->Control_0 is Terms) && is_flat(s[i])
}

proof fn lemma_flatten_flat(e: SExpr)
    ensures
        is_flat(spec_flatten(e)),
        (spec_flatten(e) is Control && spec_flatten(e)->Control_0 is Terms) <==> (e is Control && e->Control_0 is Terms),
    decreases e, 0nat,
{
    match e {
        SExpr::Control(SControl::Terms(ts)) => {
            lemma_flatten_seq_flat(ts);
        },
        SExpr::Control(SControl::Loop { terms, .. }) => {
            lemma_flatten_flat(*terms);
        },
        SExpr::Control(SControl::While { terms, .. }) => {
            lemma_flatten_flat(*terms);
        },
        _ => {},
    }
}

proof fn lemma_flatten_seq_flat(ts: Seq<SExpr>)
    ensures
        flat_items(flatten_seq(ts)),
    decreases ts, 0nat,
{
    if ts.len() > 0 {
        lemma_flatten_seq_flat(ts.drop_last());
        lemma_flatten_node_flat(ts.last());
        let a = flatten_seq(ts.drop_last());
        let b = flatten_node(ts.last());
        assert forall|i: int| 0 <= i < (a + b).len() implies
            !(#[trigger] (a + b)[i] is Control && (a + b)[i]->Control_0 is Terms) && is_flat((a + b)[i]) by {
            if i < a.len() {
                assert((a + b)[i] == a[i]);
            } else {
                assert((a + b)[i] == b[i - a.len()]);
            }
        }
    }
}

proof fn lemma_flatten_node_flat(node: SExpr)
    ensures
        flat_items(flatten_node(node)),
    decreases node, 1nat,
{
    match node {
        SExpr::Control(SControl::Terms(t)) => {
            lemma_flatten_pieces_flat(t);
        },
        _ => {
            lemma_flatten_flat(node);
            assert(flatten_node(node)[0] == spec_flatten(node));
        },
    }
}

proof fn lemma_flatten_pieces_flat(t: Seq<SExpr>)
    ensures
        flat_items(flatten_pieces(t)),
    decreases t, 0nat,
{
    if t.len() > 0 {
        lemma_flatten_pieces_flat(t.drop_last());
        let y = t.last();
        lemma_flatten_flat(y);
        let a = flatten_pieces(t.drop_last());
        let b = unwrap_terms(spec_flatten(y));
        match y {
            SExpr::Control(SControl::Terms(inner)) => {
                lemma_flatten_seq_flat(inner);
            },
            _ => {
                assert(b[0] == spec_flatten(y));
            },
        }
        assert forall|i: int| 0 <= i < (a + b).len() implies
            !(#[trigger] (a + b)[i] is Control && (a + b)[i]->Control_0 is Terms) && is_flat((a + b)[i]) by {
            if i < a.len() {
                assert((a + b)[i] == a[i]);
            } else {
                assert((a + b)[i] == b[i - a.len()]);
            }
        }
    }
}

pub(crate) proof fn lemma_flatten_fixes_flat(e: SExpr)
    requires
        is_flat(e),
    ensures
        spec_flatten(e) == e,
    decreases e, 0nat,
{
    match e {
        SExpr::Control(SControl::Terms(ts)) => {
            lemma_flatten_seq_fixes(ts);
        },
        SExpr::Control(SControl::Loop { terms, .. }) => {
            lemma_flatten_fixes_flat(*terms);
        },
        SExpr::Control(SControl::While { terms, .. }) => {
            lemma_flatten_fixes_flat(*terms);
        },
        _ => {},
    }
}

proof fn lemma_flatten_seq_fixes(ts: Seq<SExpr>)
    requires
        flat_items(ts),
    ensures
        flatten_seq(ts) == ts,
    decreases ts, 0nat,
{
    if ts.len() > 0 {
        assert(flat_items(ts.drop_last())) by {
            assert forall|i: int| 0 <= i < ts.drop_last().len() implies
                !(#[trigger] ts.drop_last()[i] is Control && ts.drop_last()[i]->Control_0 is Terms)
                && is_flat(ts.drop_last()[i]) by {
                assert(ts.drop_last()[i] == ts[i]);
            }
        }
        lemma_flatten_seq_fixes(ts.drop_last());
        let l = ts.last();
        assert(!(l is Control && l->Control_0 is Terms) && is_flat(l)) by {
            assert(l == ts[ts.len() - 1]);
        }
        lemma_flatten_fixes_flat(l);
        assert(flatten_node(l) == seq![l]);
        assert(ts.drop_last() + seq![l] =~= ts);
    }
}

/// Flattening leaves no statement list directly inside another one, and flattening
/// a flattened program changes nothing.
pub proof fn law_flatten_idempotent(e: SExpr)
    ensures
        is_flat(spec_flatten(e)),
        spec_flatten(spec_flatten(e)) == spec_flatten(e),
{
    lemma_flatten_flat(e);
    lemma_flatten_fixes_flat(spec_flatten(e));
}

impl Expr {
    /// Flattens nested statement lists: the items of a list that stands in a list
    /// take its place (recursively, and inside LOOP and WHILE bodies).
    pub fn flatten(&self) -> (r: Expr)
        ensures
            r@ == spec_flatten(self@),
        decreases self, 0nat,
    {
        match self {
            Expr::Control(Control::Terms(terms)) => {
                let f = flatten_vec(terms);
                proof {
                    lemma_terms_view(*terms);
                    lemma_terms_view(f);
                }
                Expr::Control(Control::Terms(f))
            },
            Expr::Control(Control::Loop { lno, ident, terms }) => Expr::Control(
                Control::Loop { lno: *lno, ident: Box::new(clone_expr(ident)), terms: Box::new(terms.flatten()) },
            ),
            Expr::Control(Control::While { lno, comp, terms }) => Expr::Control(
                Control::While { lno: *lno, comp: Box::new(clone_expr(comp)), terms: Box::new(terms.flatten()) },
            ),
            _ => clone_expr(self),
        }
    }
}

fn flatten_vec(ts: &Vec<Expr>) -> (r: Vec<Expr>)
    ensures
        views(r@) == flatten_seq(views(ts@)),
    decreases ts, 0nat,
{
    let mut r: Vec<Expr> = Vec::new();
    let mut i: usize = 0;
    while i < ts.len()
        invariant
            i <= ts.len(),
            views(r@) == flatten_seq(views(ts@).take(i as int)),
        decreases ts.len() - i,
    {
        let mut piece = flatten_node_vec(&ts[i]);
        let ghost before = r@;
        let ghost p = piece@;
        r.append(&mut piece);
        proof {
            assert(views(ts@).take(i + 1).drop_last() =~= views(ts@).take(i as int));
            assert(views(r@) =~= views(before) + views(p));
        }
        i = i + 1;
    }
    assert(views(ts@).take(i as int) =~= views(ts@));
    r
}

fn flatten_node_vec(node: &Expr) -> (r: Vec<Expr>)
    ensures
        views(r@) == flatten_node(node@),
    decreases node, 1nat,
{
    match node {
        Expr::Control(Control::Terms(t)) => {
            proof {
                lemma_terms_view(*t);
            }
            flatten_pieces_vec(t)
        },
        _ => {
            let mut r: Vec<Expr> = Vec::new();
            r.push(node.flatten());
            assert(views(r@) =~= seq![spec_flatten(node@)]);
            r
        },
    }
}

fn flatten_pieces_vec(t: &Vec<Expr>) -> (r: Vec<Expr>)
    ensures
        views(r@) == flatten_pieces(views(t@)),
    decreases t, 0nat,
{
    let mut r: Vec<Expr> = Vec::new();
    let mut i: usize = 0;
    while i < t.len()
        invariant
            i <= t.len(),
            views(r@) == flatten_pieces(views(t@).take(i as int)),
        decreases t.len() - i,
    {
        let f = t[i].flatten();
        let ghost before = r@;
        let ghost fv = f@;
        match f {
            Expr::Control(Control::Terms(inner)) => {
                proof {
                    lemma_terms_view(inner);
                }
                let mut inner = inner;
                let ghost p = inner@;
                r.append(&mut inner);
                proof {
                    assert(views(r@) =~= views(before) + views(p));
                }
            },
            other => {
                r.push(other);
                assert(views(r@) =~= views(before) + seq![fv]);
            },
        }
        proof {
            assert(views(t@).take(i + 1).drop_last() =~= views(t@).take(i as int));
        }
        i = i + 1;
    }
    assert(views(t@).take(i as int) =~= views(t@));
    r
}

} // verus!

verus! {

// ---------------------------------------------------------------------------
// Display

/// `n` spaces.
pub open spec fn spaces(n: nat) -> Seq<char> {
    Seq::new(n, |i: int| ' ')
}

/// The deepest nesting of LOOP and WHILE bodies.
pub open spec fn nest_depth(e: SExpr) -> nat
    decreases e, 0nat,
{
    match e {
        SExpr::Comparison { lhs, rhs, .. } => max_nat(nest_depth(*lhs), nest_depth(*rhs)),
        SExpr::BinaryOp { lhs, rhs, .. } => max_nat(nest_depth(*lhs), nest_depth(*rhs)),
        SExpr::Assign { lhs, rhs, .. } => max_nat(nest_depth(*lhs), nest_depth(*rhs)),
        SExpr::Control(SControl::Terms(ts)) => nest_depth_seq(ts),
        SExpr::Control(SControl::Loop { ident, terms, .. }) => max_nat(nest_depth(*ident), 1 + nest_depth(*terms)),
        SExpr::Control(SControl::While { comp, terms, .. }) => max_nat(nest_depth(*comp), 1 + nest_depth(*terms)),
        _ => 0,
    }
}

pub open spec fn max_nat(a: nat, b: nat) -> nat {
    if a < b { b } else { a }
}

proof fn lemma_fits_smaller(indent: nat, level: nat, d: nat, m: nat)
    requires
        d <= m,
        indent * (level + m) < 256,
    ensures
        indent * (level + d) < 256,
        indent * level < 256,
{
    assert(indent * (level + d) <= indent * (level + m)) by (nonlinear_arith)
        requires d <= m;
    assert(indent * level <= indent * (level + m)) by (nonlinear_arith);
}

pub open spec fn nest_depth_seq(ts: Seq<SExpr>) -> nat
    decreases ts, 0nat,
{
    if ts.len() == 0 {
        0
    } else {
        let a = nest_depth_seq(ts.drop_last());
        let b = nest_depth(ts.last());
        if a < b { b } else { a }
    }
}

/// The human-readable text of a program: statements on lines of their own,
/// LOOP and WHILE bodies indented by `indent` spaces per level.
pub open spec fn spec_display(e: SExpr, indent: nat, level: nat) -> Seq<char>
    decreases e, 0nat,
{
    match e {
        SExpr::Ident(s) => s,
        SExpr::Num(n) => decimal_string(n),
        SExpr::Comparison { lhs, verb, rhs } => spec_display(*lhs, indent, level) + " "@
            + comparison_verb_text(verb) + " "@ + spec_display(*rhs, indent, level),
        SExpr::BinaryOp { lhs, verb, rhs } => spec_display(*lhs, indent, level) + " "@
            + operator_verb_text(verb) + " "@ + spec_display(*rhs, indent, level),
        SExpr::Assign { lhs, rhs, .. } => spaces(indent * level) + spec_display(*lhs, indent, level)
            + " := "@ + spec_display(*rhs, indent, level),
        SExpr::Control(SControl::Terms(ts)) => display_lines(ts, indent, level),
        SExpr::Control(SControl::Loop { ident, terms, .. }) => "\n"@ + spaces(indent * level) + "LOOP "@
            + spec_display(*ident, indent, level) + " DO\n"@ + spec_display(*terms, indent, level + 1)
            + "\n"@ + spaces(indent * level) + "END"@,
        SExpr::Control(SControl::While { comp, terms, .. }) => "\n"@ + spaces(indent * level) + "WHILE "@
            + spec_display(*comp, indent, level) + " DO\n"@ + spec_display(*terms, indent, level + 1)
            + "\n"@ + spaces(indent * level) + "END"@,
    }
}

/// A LOOP and a WHILE with the same body show it alike: after their heads (`LOOP x`,
/// `WHILE c`) their texts are the same, so a LOOP body is indented one level deeper than
/// the LOOP, as a WHILE body is.
pub proof fn law_loop_body_shown_as_while(lno: LineNo, ident: SExpr, comp: SExpr, terms: SExpr, indent: nat, level: nat)
    ensures
        ({
            let l = spec_display(SExpr::Control(SControl::Loop { lno, ident: Box::new(ident), terms: Box::new(terms) }), indent, level);
            let w = spec_display(SExpr::Control(SControl::While { lno, comp: Box::new(comp), terms: Box::new(terms) }), indent, level);
            let lh = "\n"@ + spaces(indent * level) + "LOOP "@ + spec_display(ident, indent, level);
            let wh = "\n"@ + spaces(indent * level) + "WHILE "@ + spec_display(comp, indent, level);
            &&& l.len() >= lh.len() && l.take(lh.len() as int) == lh
            &&& w.len() >= wh.len() && w.take(wh.len() as int) == wh
            &&& l.skip(lh.len() as int) == w.skip(wh.len() as int)
        }),
{
    let l = spec_display(SExpr::Control(SControl::Loop { lno, ident: Box::new(ident), terms: Box::new(terms) }), indent, level);
    let w = spec_display(SExpr::Control(SControl::While { lno, comp: Box::new(comp), terms: Box::new(terms) }), indent, level);
    let lh = "\n"@ + spaces(indent * level) + "LOOP "@ + spec_display(ident, indent, level);
    let wh = "\n"@ + spaces(indent * level) + "WHILE "@ + spec_display(comp, indent, level);
    let rest = " DO\n"@ + spec_display(terms, indent, level + 1) + "\n"@ + spaces(indent * level) + "END"@;
    assert(l =~= lh + rest);
    assert(w =~= wh + rest);
    assert((lh + rest).take(lh.len() as int) =~= lh);
    assert((wh + rest).take(wh.len() as int) =~= wh);
    assert((lh + rest).skip(lh.len() as int) =~= rest);
    assert((wh + rest).skip(wh.len() as int) =~= rest);
}

/// The texts of the statements of a list, joined by line breaks.
pub open spec fn display_lines(ts: Seq<SExpr>, indent: nat, level: nat) -> Seq<char>
    decreases ts, 0nat,
{
    if ts.len() == 0 {
        seq![]
    } else if ts.len() == 1 {
        spec_display(ts[0], indent, level)
    } else {
        display_lines(ts.drop_last(), indent, level) + "\n"@ + spec_display(ts.last(), indent, level)
    }
}

/// The indentation of every nesting level of `e`, from `level` on, fits in a `u8`.
pub open spec fn display_fits(e: SExpr, indent: nat, level: nat) -> bool {
    level + nest_depth(e) < 256 && indent * (level + nest_depth(e)) < 256
}

proof fn lemma_nest_depth_seq(ts: Seq<SExpr>, i: int)
    requires
        0 <= i < ts.len(),
    ensures
        nest_depth(ts[i]) <= nest_depth_seq(ts),
        nest_depth_seq(ts.take(i)) <= nest_depth_seq(ts),
    decreases ts.len(),
{
    if i < ts.len() - 1 {
        lemma_nest_depth_seq(ts.drop_last(), i);
        assert(ts.drop_last()[i] == ts[i]);
        assert(ts.drop_last().take(i) =~= ts.take(i));
    } else {
        assert(ts.take(i) =~= ts.drop_last());
    }
}

pub(crate) fn push_spaces(s: &mut String, n: usize)
    ensures
        final(s)@ == old(s)@ + spaces(n as nat),
{
    let mut i: usize = 0;
    while i < n
        invariant
            i <= n,
            s@ == old(s)@ + spaces(i as nat),
        decreases n - i,
    {
        s.append(" ");
        proof {
            reveal_strlit(" ");
        }
        i = i + 1;
        assert(s@ =~= old(s)@ + spaces(i as nat));
    }
}

impl Expr {
    /// The name of the expression's variant ("Ident", "NaturalNumber", "Comparison",
    /// "BinaryOp", "Assign" or "Control").
    pub fn variant_name(&self) -> (r: String)
        ensures
            r@ == spec_variant_name(self@),
    {
        String::from_str(
            match self {
                Expr::Ident(_) => "Ident",
                Expr::NaturalNumber(_) => "NaturalNumber",
                Expr::Comparison { .. } => "Comparison",
                Expr::BinaryOp { .. } => "BinaryOp",
                Expr::Assign { .. } => "Assign",
                Expr::Control(_) => "Control",
            },
        )
    }

    /// The human-readable text of the program (see `spec_display`); `level` is the
    /// nesting level to start from, 0 when absent.
    pub fn display(&self, indent: u8, level: Option<u8>) -> (r: String)
        requires
            display_fits(self@, indent as nat, match level { Some(l) => l as nat, None => 0 }),
        ensures
            r@ == spec_display(self@, indent as nat, match level { Some(l) => l as nat, None => 0 }),
    {
        let l = match level {
            Some(l) => l,
            None => 0,
        };
        self.display_at(indent, l)
    }

    fn display_at(&self, indent: u8, level: u8) -> (r: String)
        requires
            display_fits(self@, indent as nat, level as nat),
        ensures
            r@ == spec_display(self@, indent as nat, level as nat),
        decreases self, 0nat,
    {
        let mut out = String::new();
        match self {
            Expr::Ident(s) => {
                out = s.clone();
            },
            Expr::NaturalNumber(n) => {
                out = n.to_decimal();
            },
            Expr::Comparison { lhs, verb, rhs } => {
                proof {
                    lemma_fits_smaller(indent as nat, level as nat, nest_depth(lhs@), nest_depth(self@));
                    lemma_fits_smaller(indent as nat, level as nat, nest_depth(rhs@), nest_depth(self@));
                }
                out = lhs.display_at(indent, level);
                out.append(" ");
                out.append(verb.display().as_str());
                out.append(" ");
                out.append(rhs.display_at(indent, level).as_str());
            },
            Expr::BinaryOp { lhs, verb, rhs } => {
                proof {
                    lemma_fits_smaller(indent as nat, level as nat, nest_depth(lhs@), nest_depth(self@));
                    lemma_fits_smaller(indent as nat, level as nat, nest_depth(rhs@), nest_depth(self@));
                }
                out = lhs.display_at(indent, level);
                out.append(" ");
                out.append(verb.display().as_str());
                out.append(" ");
                out.append(rhs.display_at(indent, level).as_str());
            },
            Expr::Assign { lhs, rhs, .. } => {
                proof {
                    lemma_fits_smaller(indent as nat, level as nat, nest_depth(lhs@), nest_depth(self@));
                    lemma_fits_smaller(indent as nat, level as nat, nest_depth(rhs@), nest_depth(self@));
                }
                push_spaces(&mut out, (indent * level) as usize);
                out.append(lhs.display_at(indent, level).as_str());
                out.append(" := ");
                out.append(rhs.display_at(indent, level).as_str());
            },
            Expr::Control(Control::Terms(ts)) => {
                proof {
                    lemma_terms_view(*ts);
                }
                out = display_lines_vec(ts, indent, level);
            },
            Expr::Control(Control::Loop { ident, terms, .. }) => {
                proof {
                    lemma_fits_smaller(indent as nat, level as nat, nest_depth(ident@), nest_depth(self@));
                    lemma_fits_smaller(indent as nat, level as nat, 1 + nest_depth(terms@), nest_depth(self@));
                    assert(level + 1 + nest_depth(terms@) == (level + 1) + nest_depth(terms@));
                }
                out.append("\n");
                push_spaces(&mut out, (indent * level) as usize);
                out.append("LOOP ");
                out.append(ident.display_at(indent, level).as_str());
                out.append(" DO\n");
                out.append(terms.display_at(indent, level + 1).as_str());
                out.append("\n");
                push_spaces(&mut out, (indent * level) as usize);
                out.append("END");
            },
            Expr::Control(Control::While { comp, terms, .. }) => {
                proof {
                    lemma_fits_smaller(indent as nat, level as nat, nest_depth(comp@), nest_depth(self@));
                    lemma_fits_smaller(indent as nat, level as nat, 1 + nest_depth(terms@), nest_depth(self@));
                    assert(level + 1 + nest_depth(terms@) == (level + 1) + nest_depth(terms@));
                }
                out.append("\n");
                push_spaces(&mut out, (indent * level) as usize);
                out.append("WHILE ");
                out.append(comp.display_at(indent, level).as_str());
                out.append(" DO\n");
                out.append(terms.display_at(indent, level + 1).as_str());
                out.append("\n");
                push_spaces(&mut out, (indent * level) as usize);
                out.append("END");
            },
        }
        out
    }
}

fn display_lines_vec(ts: &Vec<Expr>, indent: u8, level: u8) -> (r: String)
    requires
        level + nest_depth_seq(views(ts@)) < 256,
        indent * (level + nest_depth_seq(views(ts@))) < 256,
    ensures
        r@ == display_lines(views(ts@), indent as nat, level as nat),
    decreases ts, 0nat,
{
    let mut out = String::new();
    let mut i: usize = 0;
    while i < ts.len()
        invariant
            i <= ts.len(),
            level + nest_depth_seq(views(ts@)) < 256,
            indent * (level + nest_depth_seq(views(ts@))) < 256,
            out@ == display_lines(views(ts@).take(i as int), indent as nat, level as nat),
        decreases ts.len() - i,
    {
        proof {
            lemma_nest_depth_seq(views(ts@), i as int);
            let d = nest_depth(ts@[i as int]@);
            let m = nest_depth_seq(views(ts@));
            assert(views(ts@)[i as int] == ts@[i as int]@);
            lemma_fits_smaller(indent as nat, level as nat, d, m);
            assert(views(ts@).take(i + 1).drop_last() =~= views(ts@).take(i as int));
        }
        let line = ts[i].display_at(indent, level);
        if i > 0 {
            out.append("\n");
        }
        out.append(line.as_str());
        i = i + 1;
    }
    assert(views(ts@).take(i as int) =~= views(ts@));
    out
}

/// The name of a variant of the model.
pub open spec fn spec_variant_name(e: SExpr) -> Seq<char> {
    match e {
        SExpr::Ident(_) => "Ident"@,
        SExpr::Num(_) => "NaturalNumber"@,
        SExpr::Comparison { .. } => "Comparison"@,
        SExpr::BinaryOp { .. } => "BinaryOp"@,
        SExpr::Assign { .. } => "Assign"@,
        SExpr::Control(_) => "Control"@,
    }
}

} // verus!

verus! {

/// A program of the runnable core language: assignments `x := y + n` and `x := y - n`,
/// LOOPs over a variable, WHILE loops on a comparison of variables and numbers, and
/// statement lists of these.
pub open spec fn runnable(e: SExpr) -> bool
    decreases e, 0nat,
{
    match e {
        SExpr::Assign { lhs, rhs, .. } => *lhs is Ident && (match *rhs {
            SExpr::BinaryOp { lhs: l, verb, rhs: r } => *l is Ident && *r is Num && verb != OperatorVerb::Multiply,
            _ => false,
        }),
        SExpr::Control(SControl::Terms(ts)) => runnable_seq(ts),
        SExpr::Control(SControl::While { comp, terms, .. }) => (match *comp {
            SExpr::Comparison { lhs, rhs, .. } => (*lhs is Ident || *lhs is Num) && (*rhs is Ident || *rhs is Num),
            _ => false,
        }) && runnable(*terms),
        SExpr::Control(SControl::Loop { ident, terms, .. }) => *ident is Ident && runnable(*terms),
        _ => false,
    }
}

/// Every statement of the list is runnable.
pub open spec fn runnable_seq(ts: Seq<SExpr>) -> bool
    decreases ts, 0nat,
{
    forall|i: int| 0 <= i < ts.len() ==> runnable(#[trigger] ts[i])
}

/// The LOOP statements of a program need `LOOP`, its WHILE statements need `WHILE`.
pub open spec fn mode_ok(e: SExpr, flags: CompileFlags) -> bool
    decreases e, 0nat,
{
    match e {
        SExpr::Control(SControl::Terms(ts)) => mode_ok_seq(ts, flags),
        SExpr::Control(SControl::Loop { terms, .. }) => flags.spec_contains(LOOP) && mode_ok(*terms, flags),
        SExpr::Control(SControl::While { terms, .. }) => flags.spec_contains(WHILE) && mode_ok(*terms, flags),
        _ => true,
    }
}

/// Every statement of the list is `mode_ok`.
pub open spec fn mode_ok_seq(ts: Seq<SExpr>, flags: CompileFlags) -> bool
    decreases ts, 0nat,
{
    forall|i: int| 0 <= i < ts.len() ==> mode_ok(#[trigger] ts[i], flags)
}

proof fn lemma_runnable_concat(a: Seq<SExpr>, b: Seq<SExpr>)
    requires
        runnable_seq(a),
        runnable_seq(b),
    ensures
        runnable_seq(a + b),
{
    assert forall|i: int| 0 <= i < (a + b).len() implies runnable(#[trigger] (a + b)[i]) by {
        if i < a.len() {
            assert((a + b)[i] == a[i]);
        } else {
            assert((a + b)[i] == b[i - a.len()]);
        }
    }
}

proof fn lemma_flatten_runnable(e: SExpr)
    requires
        runnable(e),
    ensures
        runnable(spec_flatten(e)),
    decreases e, 0nat,
{
    match e {
        SExpr::Control(SControl::Terms(ts)) => {
            lemma_flatten_seq_runnable(ts);
        },
        SExpr::Control(SControl::Loop { terms, .. }) => {
            lemma_flatten_runnable(*terms);
        },
        SExpr::Control(SControl::While { terms, .. }) => {
            lemma_flatten_runnable(*terms);
        },
        _ => {},
    }
}

proof fn lemma_flatten_seq_runnable(ts: Seq<SExpr>)
    requires
        runnable_seq(ts),
    ensures
        runnable_seq(flatten_seq(ts)),
    decreases ts, 0nat,
{
    if ts.len() > 0 {
        assert(runnable_seq(ts.drop_last())) by {
            assert forall|i: int| 0 <= i < ts.drop_last().len() implies runnable(#[trigger] ts.drop_last()[i]) by {
                assert(ts.drop_last()[i] == ts[i]);
            }
        }
        lemma_flatten_seq_runnable(ts.drop_last());
        assert(runnable(ts.last())) by {
            assert(ts.last() == ts[ts.len() - 1]);
        }
        lemma_flatten_node_runnable(ts.last());
        lemma_runnable_concat(flatten_seq(ts.drop_last()), flatten_node(ts.last()));
    }
}

proof fn lemma_flatten_node_runnable(node: SExpr)
    requires
        runnable(node),
    ensures
        runnable_seq(flatten_node(node)),
    decreases node, 1nat,
{
    match node {
        SExpr::Control(SControl::Terms(t)) => {
            lemma_flatten_pieces_runnable(t);
        },
        _ => {
            lemma_flatten_runnable(node);
            assert(flatten_node(node)[0] == spec_flatten(node));
        },
    }
}

proof fn lemma_flatten_pieces_runnable(t: Seq<SExpr>)
    requires
        runnable_seq(t),
    ensures
        runnable_seq(flatten_pieces(t)),
    decreases t, 0nat,
{
    if t.len() > 0 {
        assert(runnable_seq(t.drop_last())) by {
            assert forall|i: int| 0 <= i < t.drop_last().len() implies runnable(#[trigger] t.drop_last()[i]) by {
                assert(t.drop_last()[i] == t[i]);
            }
        }
        lemma_flatten_pieces_runnable(t.drop_last());
        let y = t.last();
        assert(runnable(y)) by {
            assert(y == t[t.len() - 1]);
        }
        lemma_flatten_runnable(y);
        match y {
            SExpr::Control(SControl::Terms(inner)) => {
                lemma_flatten_seq_runnable(inner);
            },
            _ => {
                assert(unwrap_terms(spec_flatten(y))[0] == spec_flatten(y));
            },
        }
        lemma_runnable_concat(flatten_pieces(t.drop_last()), unwrap_terms(spec_flatten(y)));
    }
}

/// Flattening keeps a program runnable.
pub proof fn law_flatten_keeps_runnable(e: SExpr)
    requires
        runnable(e),
    ensures
        runnable(spec_flatten(e)),
{
    lemma_flatten_runnable(e);
}

} // verus!

verus! {

// ---------------------------------------------------------------------------
// Indentation of displayed statements

/// `t` holds no line break.
pub open spec fn one_line(t: Seq<char>) -> bool {
    forall|i: int| 0 <= i < t.len() ==> t[i] != '\n'
}

/// Every nonempty line of `t` starts with at least `n` spaces.
pub open spec fn indented(t: Seq<char>, n: nat) -> bool {
    forall|i: int|
        0 <= i < t.len() && (i == 0 || t[i - 1] == '\n') && #[trigger] t[i] != '\n' ==> i + n <= t.len()
            && forall|j: int| i <= j < i + n ==> t[j] == ' '
}

/// An operand or condition that displays on one line: identifiers without line breaks,
/// numbers, and comparisons and operations of such.
pub open spec fn inline_shaped(e: SExpr) -> bool
    decreases e,
{
    match e {
        SExpr::Ident(s) => one_line(s),
        SExpr::Num(_) => true,
        SExpr::Comparison { lhs, rhs, .. } => inline_shaped(*lhs) && inline_shaped(*rhs),
        SExpr::BinaryOp { lhs, rhs, .. } => inline_shaped(*lhs) && inline_shaped(*rhs),
        _ => false,
    }
}

/// A statement: an assignment of inline operands, a list of statements, or a LOOP or
/// WHILE with an inline head and a statement as its body.
pub open spec fn stmt_shaped(e: SExpr) -> bool
    decreases e,
{
    match e {
        SExpr::Assign { lhs, rhs, .. } => inline_shaped(*lhs) && inline_shaped(*rhs),
        SExpr::Control(SControl::Terms(ts)) => forall|i: int| 0 <= i < ts.len() ==> stmt_shaped(#[trigger] ts[i]),
        SExpr::Control(SControl::Loop { ident, terms, .. }) => inline_shaped(*ident) && stmt_shaped(*terms),
        SExpr::Control(SControl::While { comp, terms, .. }) => inline_shaped(*comp) && stmt_shaped(*terms),
        _ => false,
    }
}

proof fn lemma_one_line_concat(a: Seq<char>, b: Seq<char>)
    requires
        one_line(a),
        one_line(b),
    ensures
        one_line(a + b),
{
    assert forall|i: int| 0 <= i < (a + b).len() implies (a + b)[i] != '\n' by {
        if i < a.len() {
            assert((a + b)[i] == a[i]);
        } else {
            assert((a + b)[i] == b[i - a.len()]);
        }
    }
}

proof fn lemma_verb_texts_one_line(c: ComparisonVerb, o: OperatorVerb)
    ensures
        one_line(comparison_verb_text(c)),
        one_line(operator_verb_text(o)),
        one_line(" "@),
{
    reveal_strlit("==");
    reveal_strlit("!=");
    reveal_strlit(">");
    reveal_strlit(">=");
    reveal_strlit("<");
    reveal_strlit("<=");
    reveal_strlit("+");
    reveal_strlit("-");
    reveal_strlit("*");
    reveal_strlit(" ");
}

proof fn lemma_inline_one_line(e: SExpr, indent: nat, level: nat)
    requires
        inline_shaped(e),
    ensures
        one_line(spec_display(e, indent, level)),
    decreases e,
{
    match e {
        SExpr::Ident(s) => {},
        SExpr::Num(n) => {
            crate::parser::lemma_decimal_string(n);
            let d = decimal_string(n);
            assert forall|i: int| 0 <= i < d.len() implies d[i] != '\n' by {
                assert('0' <= d[i] <= '9');
            }
        },
        SExpr::Comparison { lhs, verb, rhs } => {
            lemma_inline_one_line(*lhs, indent, level);
            lemma_inline_one_line(*rhs, indent, level);
            lemma_verb_texts_one_line(verb, OperatorVerb::Plus);
            let l = spec_display(*lhs, indent, level);
            let r = spec_display(*rhs, indent, level);
            lemma_one_line_concat(l, " "@);
            lemma_one_line_concat(l + " "@, comparison_verb_text(verb));
            lemma_one_line_concat(l + " "@ + comparison_verb_text(verb), " "@);
            lemma_one_line_concat(l + " "@ + comparison_verb_text(verb) + " "@, r);
        },
        SExpr::BinaryOp { lhs, verb, rhs } => {
            lemma_inline_one_line(*lhs, indent, level);
            lemma_inline_one_line(*rhs, indent, level);
            lemma_verb_texts_one_line(ComparisonVerb::Equal, verb);
            let l = spec_display(*lhs, indent, level);
            let r = spec_display(*rhs, indent, level);
            lemma_one_line_concat(l, " "@);
            lemma_one_line_concat(l + " "@, operator_verb_text(verb));
            lemma_one_line_concat(l + " "@ + operator_verb_text(verb), " "@);
            lemma_one_line_concat(l + " "@ + operator_verb_text(verb) + " "@, r);
        },
        _ => {},
    }
}

proof fn lemma_indented_concat(a: Seq<char>, b: Seq<char>, n: nat)
    requires
        indented(a, n),
        indented(b, n),
    ensures
        indented(a + b, n),
{
    let t = a + b;
    assert forall|i: int| 0 <= i < t.len() && (i == 0 || t[i - 1] == '\n') && #[trigger] t[i] != '\n' implies i + n
        <= t.len() && forall|j: int| i <= j < i + n ==> t[j] == ' ' by {
        if i < a.len() {
            assert(a[i] == t[i]);
            if i > 0 {
                assert(a[i - 1] == t[i - 1]);
            }
            assert forall|j: int| i <= j < i + n implies t[j] == ' ' by {
                assert(t[j] == a[j]);
            }
        } else {
            let k = i - a.len();
            assert(b[k] == t[i]);
            if k > 0 {
                assert(b[k - 1] == t[i - 1]);
            }
            assert forall|j: int| i <= j < i + n implies t[j] == ' ' by {
                assert(t[j] == b[j - a.len()]);
            }
        }
    }
}

proof fn lemma_indented_line(m: nat, x: Seq<char>, n: nat)
    requires
        one_line(x),
        n <= m,
    ensures
        indented(spaces(m) + x, n),
{
    let t = spaces(m) + x;
    assert forall|i: int| 0 <= i < t.len() && (i == 0 || t[i - 1] == '\n') && #[trigger] t[i] != '\n' implies i + n
        <= t.len() && forall|j: int| i <= j < i + n ==> t[j] == ' ' by {
        if i > 0 {
            if i - 1 < m {
                assert(t[i - 1] == ' ');
            } else {
                assert(t[i - 1] == x[i - 1 - m]);
            }
        }
        assert forall|j: int| i <= j < i + n implies t[j] == ' ' by {
            assert(t[j] == spaces(m)[j]);
        }
    }
}

proof fn lemma_newline_indented(n: nat)
    ensures
        indented("\n"@, n),
{
    reveal_strlit("\n");
}

/// Every nonempty line of a statement shown at level `level` starts with `indent * level`
/// spaces, or more.
pub proof fn law_statement_lines_indented(e: SExpr, indent: nat, level: nat)
    requires
        stmt_shaped(e),
    ensures
        indented(spec_display(e, indent, level), indent * level),
    decreases e, 1nat,
{
    lemma_statement_lines_indented(e, indent, level, indent * level);
}

/// Between its head line and its `END` line, the text of a LOOP shown at level `level` is
/// its body, every nonempty line of which starts with `indent * (level + 1)` spaces: the
/// body is indented one level deeper than the LOOP.
pub proof fn law_loop_body_indented(lno: LineNo, ident: SExpr, terms: SExpr, indent: nat, level: nat)
    requires
        inline_shaped(ident),
        stmt_shaped(terms),
    ensures
        ({
            let t = spec_display(SExpr::Control(SControl::Loop { lno, ident: Box::new(ident), terms: Box::new(terms) }), indent, level);
            let head = "\n"@ + spaces(indent * level) + "LOOP "@ + spec_display(ident, indent, level) + " DO\n"@;
            let tail = "\n"@ + spaces(indent * level) + "END"@;
            &&& t.len() >= head.len() + tail.len()
            &&& t.take(head.len() as int) == head
            &&& t.skip(t.len() - tail.len()) == tail
            &&& indented(t.subrange(head.len() as int, t.len() - tail.len()), indent * (level + 1))
        }),
{
    let head = "\n"@ + spaces(indent * level) + "LOOP "@ + spec_display(ident, indent, level) + " DO\n"@;
    let tail = "\n"@ + spaces(indent * level) + "END"@;
    let b = spec_display(terms, indent, level + 1);
    law_statement_lines_indented(terms, indent, level + 1);
    lemma_split_three(head, b, tail);
}

/// Between its head line and its `END` line, the text of a WHILE shown at level `level` is
/// its body, every nonempty line of which starts with `indent * (level + 1)` spaces.
pub proof fn law_while_body_indented(lno: LineNo, comp: SExpr, terms: SExpr, indent: nat, level: nat)
    requires
        inline_shaped(comp),
        stmt_shaped(terms),
    ensures
        ({
            let t = spec_display(SExpr::Control(SControl::While { lno, comp: Box::new(comp), terms: Box::new(terms) }), indent, level);
            let head = "\n"@ + spaces(indent * level) + "WHILE "@ + spec_display(comp, indent, level) + " DO\n"@;
            let tail = "\n"@ + spaces(indent * level) + "END"@;
            &&& t.len() >= head.len() + tail.len()
            &&& t.take(head.len() as int) == head
            &&& t.skip(t.len() - tail.len()) == tail
            &&& indented(t.subrange(head.len() as int, t.len() - tail.len()), indent * (level + 1))
        }),
{
    let head = "\n"@ + spaces(indent * level) + "WHILE "@ + spec_display(comp, indent, level) + " DO\n"@;
    let tail = "\n"@ + spaces(indent * level) + "END"@;
    let b = spec_display(terms, indent, level + 1);
    law_statement_lines_indented(terms, indent, level + 1);
    lemma_split_three(head, b, tail);
}

proof fn lemma_split_three(a: Seq<char>, b: Seq<char>, c: Seq<char>)
    ensures
        ({
            let t = a + b + c;
            &&& t.len() >= a.len() + c.len()
            &&& t.take(a.len() as int) == a
            &&& t.skip(t.len() - c.len()) == c
            &&& t.subrange(a.len() as int, t.len() - c.len()) == b
        }),
{
    let t = a + b + c;
    assert(t.take(a.len() as int) =~= a);
    assert(t.skip(t.len() - c.len()) =~= c);
    assert(t.subrange(a.len() as int, t.len() - c.len()) =~= b);
}

proof fn lemma_mul_mono(indent: nat, level: nat)
    ensures
        indent * level <= indent * (level + 1),
{
    assert(indent * level <= indent * (level + 1)) by (nonlinear_arith);
}

proof fn lemma_statement_lines_indented(e: SExpr, indent: nat, level: nat, n: nat)
    requires
        stmt_shaped(e),
        n <= indent * level,
    ensures
        indented(spec_display(e, indent, level), n),
    decreases e, 0nat,
{
    match e {
        SExpr::Assign { lno, lhs, rhs } => {
            lemma_assign_indented(*lhs, *rhs, indent, level, n);
            assert(spec_display(e, indent, level) == spaces(indent * level) + spec_display(*lhs, indent, level)
                + " := "@ + spec_display(*rhs, indent, level));
        },
        SExpr::Control(SControl::Terms(ts)) => {
            lemma_lines_indented(ts, indent, level, n);
        },
        SExpr::Control(SControl::Loop { lno, ident, terms }) => {
            lemma_mul_mono(indent, level);
            lemma_statement_lines_indented(*terms, indent, level + 1, n);
            lemma_block_indented("LOOP "@, *ident, *terms, indent, level, n);
        },
        SExpr::Control(SControl::While { lno, comp, terms }) => {
            lemma_mul_mono(indent, level);
            lemma_statement_lines_indented(*terms, indent, level + 1, n);
            lemma_block_indented("WHILE "@, *comp, *terms, indent, level, n);
        },
        _ => {},
    }
}

proof fn lemma_assign_indented(lhs: SExpr, rhs: SExpr, indent: nat, level: nat, n: nat)
    requires
        inline_shaped(lhs),
        inline_shaped(rhs),
        n <= indent * level,
    ensures
        indented(spaces(indent * level) + spec_display(lhs, indent, level) + " := "@ + spec_display(rhs, indent, level), n),
{
    reveal_strlit(" := ");
    lemma_inline_one_line(lhs, indent, level);
    lemma_inline_one_line(rhs, indent, level);
    let l = spec_display(lhs, indent, level);
    let r = spec_display(rhs, indent, level);
    assert(one_line(" := "@));
    lemma_one_line_concat(l, " := "@);
    lemma_one_line_concat(l + " := "@, r);
    lemma_indented_line(indent * level, l + " := "@ + r, n);
    assert(spaces(indent * level) + l + " := "@ + r =~= spaces(indent * level) + (l + " := "@ + r));
}

proof fn lemma_block_indented(word: Seq<char>, head: SExpr, body: SExpr, indent: nat, level: nat, n: nat)
    requires
        word == "LOOP "@ || word == "WHILE "@,
        inline_shaped(head),
        indented(spec_display(body, indent, level + 1), n),
        n <= indent * level,
    ensures
        indented("\n"@ + spaces(indent * level) + word + spec_display(head, indent, level) + " DO\n"@
            + spec_display(body, indent, level + 1) + "\n"@ + spaces(indent * level) + "END"@, n),
{
    reveal_strlit("LOOP ");
    reveal_strlit("WHILE ");
    assert(one_line(word));
    lemma_inline_one_line(head, indent, level);
    let sp = spaces(indent * level);
    let h = spec_display(head, indent, level);
    let b = spec_display(body, indent, level + 1);
    lemma_head_tail_indented(sp, word, h, b, indent * level, n);
    lemma_block_text(sp, word, h, b);
}

proof fn lemma_block_text(sp: Seq<char>, word: Seq<char>, h: Seq<char>, b: Seq<char>)
    ensures
        "\n"@ + sp + word + h + " DO\n"@ + b + "\n"@ + sp + "END"@ == "\n"@ + (sp + (word + h + " DO"@))
            + "\n"@ + b + "\n"@ + (sp + "END"@),
{
    reveal_strlit(" DO\n");
    reveal_strlit(" DO");
    reveal_strlit("\n");
    assert(" DO\n"@ =~= " DO"@ + "\n"@);
    assert("\n"@ + sp + word + h + " DO\n"@ + b + "\n"@ + sp + "END"@ =~= "\n"@ + (sp + (word + h + " DO"@))
        + "\n"@ + b + "\n"@ + (sp + "END"@));
}

proof fn lemma_head_tail_indented(sp: Seq<char>, word: Seq<char>, h: Seq<char>, b: Seq<char>, m: nat, n: nat)
    requires
        sp == spaces(m),
        n <= m,
        one_line(word),
        one_line(h),
        indented(b, n),
    ensures
        indented("\n"@ + (sp + (word + h + " DO"@)) + "\n"@ + b + "\n"@ + (sp + "END"@), n),
{
    reveal_strlit(" DO");
    reveal_strlit("END");
    assert(one_line(" DO"@));
    assert(one_line("END"@));
    lemma_one_line_concat(word, h);
    lemma_one_line_concat(word + h, " DO"@);
    lemma_indented_line(m, word + h + " DO"@, n);
    lemma_indented_line(m, "END"@, n);
    lemma_newline_indented(n);
    let a1 = "\n"@ + (sp + (word + h + " DO"@));
    lemma_indented_concat("\n"@, sp + (word + h + " DO"@), n);
    lemma_indented_concat(a1, "\n"@, n);
    lemma_indented_concat(a1 + "\n"@, b, n);
    lemma_indented_concat(a1 + "\n"@ + b, "\n"@, n);
    lemma_indented_concat(a1 + "\n"@ + b + "\n"@, sp + "END"@, n);
}

proof fn lemma_lines_indented(ts: Seq<SExpr>, indent: nat, level: nat, n: nat)
    requires
        forall|i: int| 0 <= i < ts.len() ==> stmt_shaped(#[trigger] ts[i]),
        n <= indent * level,
    ensures
        indented(display_lines(ts, indent, level), n),
    decreases ts, 0nat,
{
    if ts.len() == 0 {
    } else if ts.len() == 1 {
        lemma_statement_lines_indented(ts[0], indent, level, n);
    } else {
        let init = ts.drop_last();
        assert forall|i: int| 0 <= i < init.len() implies stmt_shaped(#[trigger] init[i]) by {
            assert(init[i] == ts[i]);
        }
        lemma_lines_indented(init, indent, level, n);
        lemma_statement_lines_indented(ts.last(), indent, level, n);
        lemma_newline_indented(n);
        let a = display_lines(init, indent, level);
        lemma_indented_concat(a, "\n"@, n);
        lemma_indented_concat(a + "\n"@, spec_display(ts.last(), indent, level), n);
    }
}

} // verus!
