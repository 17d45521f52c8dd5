use vstd::prelude::*;
use crate::expr::{Expr, Control, SExpr, LineNo};
use crate::uint::{UInt, all_decimal, decimal_value, decimal_string};
use crate::verbs::{ComparisonVerb, OperatorVerb, operator_verb_text, comparison_verb_text};
use crate::hir::{Hir, Macro, MacroAssign, Func, FuncCall, FuncDecl, Imp, ImpFunc, ImpFuncs, ImpWildcard, Module, stmt_wf,
    macro_wf, func_wf, is_ident, is_atom, is_plain_assign, is_atom_comparison};
use crate::modctx::decl_wf;
use crate::errors::Error;

verus! {

/// How a source is parsed: with `lno`, every statement gets that line number.
pub struct ParseSettings {
    pub lno: Option<LineNo>,
}

impl ParseSettings {
    pub fn new(lno: Option<LineNo>) -> (r: ParseSettings)
        ensures
            r.lno == lno,
    {
        ParseSettings { lno }
    }
}

/// The parser of LOOP/WHILE sources.
pub struct LoopParser {}

/// An import whose path parts and function names are identifiers.
pub open spec fn imp_wf(i: Imp) -> bool {
    &&& forall|k: int| 0 <= k < i.path@.len() ==> is_ident(#[trigger] i.path@[k])
    &&& match i.funcs {
        ImpFuncs::Funcs(fs) => forall|k: int| 0 <= k < fs@.len() ==> imp_func_wf(#[trigger] fs@[k]),
        ImpFuncs::Wildcard(_) => true,
    }
}

/// An imported function whose name and alias are identifiers.
pub open spec fn imp_func_wf(f: ImpFunc) -> bool {
    &&& is_ident(*f.ident)
    &&& (f.alias matches Some(a) ==> is_ident(*a))
}

/// A character that only separates: a blank, a line break or `;`.
pub open spec fn is_sep(c: char) -> bool {
    c == ' ' || c == '\t' || c == '\r' || c == '\n' || c == ';'
}

/// A source of separators only, which holds no statement.
pub open spec fn blank(s: Seq<char>) -> bool {
    forall|i: int| 0 <= i < s.len() ==> is_sep(#[trigger] s[i])
}

/// A blank within a line: a space, a tab or a carriage return.
pub open spec fn is_blank(c: char) -> bool {
    c == ' ' || c == '\t' || c == '\r'
}

/// A letter.
pub open spec fn spec_is_letter(c: char) -> bool {
    ('a' <= c && c <= 'z') || ('A' <= c && c <= 'Z')
}

/// A character that can continue an identifier.
pub open spec fn spec_is_ident_char(c: char) -> bool {
    spec_is_letter(c) || ('0' <= c && c <= '9') || c == '_'
}

/// The characters from `a` to `b` are blanks.
pub open spec fn blanks(s: Seq<char>, a: int, b: int) -> bool {
    forall|i: int| a <= i < b ==> is_blank(#[trigger] s[i])
}

/// Blanks end at `q`: there is no character, or one that is neither a blank nor a comment.
pub open spec fn blank_stop(s: Seq<char>, q: int) -> bool {
    q == s.len() || (q < s.len() && !is_blank(s[q]) && s[q] != '#')
}

/// A character that starts a statement or a token: no blank, comment, line break or `;`.
pub open spec fn plain_char(c: char) -> bool {
    !is_blank(c) && c != '#' && c != '\n' && c != ';'
}

/// The end of the run of identifier characters from `p`.
pub open spec fn ident_end(s: Seq<char>, p: int) -> int
    decreases s.len() - p,
{
    if 0 <= p < s.len() && spec_is_ident_char(s[p]) {
        ident_end(s, p + 1)
    } else {
        p
    }
}

proof fn lemma_ident_end(s: Seq<char>, p: int)
    ensures
        ident_end(s, p) >= p,
        0 <= p < s.len() && spec_is_ident_char(s[p]) ==> ident_end(s, p) > p,
    decreases s.len() - p,
{
    if 0 <= p < s.len() && spec_is_ident_char(s[p]) {
        lemma_ident_end(s, p + 1);
    }
}

proof fn lemma_digits_end(s: Seq<char>, p: int)
    ensures
        digits_end(s, p) >= p,
        0 <= p < s.len() && '0' <= s[p] <= '9' ==> digits_end(s, p) > p,
        forall|k: int| p <= k < digits_end(s, p) ==> '0' <= #[trigger] s[k] <= '9',
        digits_end(s, p) <= s.len() || digits_end(s, p) == p,
    decreases s.len() - p,
{
    if 0 <= p < s.len() && '0' <= s[p] <= '9' {
        lemma_digits_end(s, p + 1);
    }
}

/// The end of the run of decimal digits from `p`.
pub open spec fn digits_end(s: Seq<char>, p: int) -> int
    decreases s.len() - p,
{
    if 0 <= p < s.len() && '0' <= s[p] <= '9' {
        digits_end(s, p + 1)
    } else {
        p
    }
}

// ---------------------------------------------------------------------------
// Simple statements

/// An assignment statement of a straight-line program: `x := y`, `x := n`, `x := y op z`
/// or `x := y op n`.
pub enum Simple {
    Copy { x: Seq<char>, y: Seq<char> },
    Value { x: Seq<char>, n: nat },
    Bin { x: Seq<char>, y: Seq<char>, verb: OperatorVerb, z: Seq<char> },
    Num { x: Seq<char>, y: Seq<char>, verb: OperatorVerb, n: nat },
}

/// The variable a simple statement assigns to.
pub open spec fn target_of(st: Simple) -> Seq<char> {
    match st {
        Simple::Copy { x, .. } => x,
        Simple::Value { x, .. } => x,
        Simple::Bin { x, .. } => x,
        Simple::Num { x, .. } => x,
    }
}

/// The text right of `:=`.
pub open spec fn rhs_text(st: Simple) -> Seq<char> {
    match st {
        Simple::Copy { y, .. } => y,
        Simple::Value { n, .. } => decimal_string(n),
        Simple::Bin { y, verb, z, .. } => y + " "@ + operator_verb_text(verb) + " "@ + z,
        Simple::Num { y, verb, n, .. } => y + " "@ + operator_verb_text(verb) + " "@ + decimal_string(n),
    }
}

/// The text of a simple statement, with single blanks around `:=` and the operator.
pub open spec fn simple_text(st: Simple) -> Seq<char> {
    target_of(st) + " := "@ + rhs_text(st)
}

/// A word the parser reads as a keyword where a statement starts.
pub open spec fn is_keyword(x: Seq<char>) -> bool {
    x == "LOOP"@ || x == "WHILE"@ || x == "IF"@ || x == "END"@ || x == "FROM"@ || x == "FN"@ || x == "ELSE"@
}

/// A variable name: a letter or `_`, then letters, digits and `_`; no keyword.
pub open spec fn is_name(x: Seq<char>) -> bool {
    &&& x.len() > 0
    &&& (spec_is_letter(x[0]) || x[0] == '_')
    &&& forall|i: int| 0 <= i < x.len() ==> spec_is_ident_char(#[trigger] x[i])
    &&& !is_keyword(x)
}

/// The names of a simple statement are variable names.
pub open spec fn simple_ok(st: Simple) -> bool {
    match st {
        Simple::Copy { x, y } => is_name(x) && is_name(y),
        Simple::Value { x, .. } => is_name(x),
        Simple::Bin { x, y, z, .. } => is_name(x) && is_name(y) && is_name(z),
        Simple::Num { x, y, .. } => is_name(x) && is_name(y),
    }
}

/// The simple statement a parsed statement stands for, if any.
pub open spec fn simple_of(h: Hir) -> Option<Simple> {
    match h {
        Hir::Macro(Macro::AssignToIdent { lhs, rhs, .. }) => Some(Simple::Copy { x: (*lhs)@->Ident_0, y: (*rhs)@->Ident_0 }),
        Hir::Macro(Macro::AssignToZero { lhs, .. }) => Some(Simple::Value { x: (*lhs)@->Ident_0, n: 0 }),
        Hir::Macro(Macro::AssignToValue { lhs, rhs, .. }) => Some(Simple::Value { x: (*lhs)@->Ident_0, n: (*rhs)@->Num_0 }),
        Hir::Macro(Macro::AssignToIdentBinOpIdent { lhs, rhs, .. }) => Some(Simple::Bin {
            x: (*lhs)@->Ident_0,
            y: (*rhs.lhs)@->Ident_0,
            verb: rhs.verb,
            z: (*rhs.rhs)@->Ident_0,
        }),
        Hir::Macro(Macro::AssignToIdentExtBinOpValue { lhs, rhs, .. }) => if rhs.verb == OperatorVerb::Multiply {
            Some(Simple::Num { x: (*lhs)@->Ident_0, y: (*rhs.lhs)@->Ident_0, verb: rhs.verb, n: (*rhs.rhs)@->Num_0 })
        } else {
            None
        },
        Hir::Expr(e) => match e@ {
            SExpr::Assign { lhs, rhs, .. } => match (*lhs, *rhs) {
                (SExpr::Ident(x), SExpr::BinaryOp { lhs: l, verb, rhs: r }) => match (*l, *r) {
                    (SExpr::Ident(y), SExpr::Num(n)) => if verb != OperatorVerb::Multiply {
                        Some(Simple::Num { x, y, verb, n })
                    } else {
                        None
                    },
                    _ => None,
                },
                _ => None,
            },
            _ => None,
        },
        _ => None,
    }
}

/// The text `t` stands at `p`, followed by a line break or the end.
pub open spec fn line_at(s: Seq<char>, p: int, t: Seq<char>) -> bool {
    &&& 0 <= p
    &&& p + t.len() <= s.len()
    &&& s.subrange(p, p + t.len()) == t
    &&& (p + t.len() == s.len() || s[p + t.len()] == '\n')
}

/// The simple statement `st` stands at `p`, on a line of its own from there on.
pub open spec fn stmt_at(s: Seq<char>, p: int, st: Simple) -> bool {
    simple_ok(st) && line_at(s, p, simple_text(st))
}

/// A text made of two parts stands at `p` when each does.
proof fn lemma_split(s: Seq<char>, p: int, a: Seq<char>, b: Seq<char>)
    requires
        0 <= p,
        p + a.len() + b.len() <= s.len(),
        s.subrange(p, p + a.len() + b.len()) == a + b,
    ensures
        s.subrange(p, p + a.len()) == a,
        s.subrange(p + a.len(), p + a.len() + b.len()) == b,
{
    assert(s.subrange(p, p + a.len()) =~= (a + b).subrange(0, a.len() as int));
    assert(s.subrange(p + a.len(), p + a.len() + b.len()) =~= (a + b).subrange(a.len() as int, (a.len() + b.len()) as int));
}

/// The characters of a text that stands at `p`.
proof fn lemma_chars(s: Seq<char>, p: int, t: Seq<char>)
    requires
        0 <= p,
        p + t.len() <= s.len(),
        s.subrange(p, p + t.len()) == t,
    ensures
        forall|i: int| 0 <= i < t.len() ==> s[p + i] == #[trigger] t[i],
{
    assert forall|i: int| 0 <= i < t.len() implies s[p + i] == #[trigger] t[i] by {
        assert(s.subrange(p, p + t.len())[i] == s[p + i]);
    }
}

/// What a simple statement at `p` looks like up to the start of its right-hand side.
proof fn lemma_head(s: Seq<char>, p: int, st: Simple)
    requires
        stmt_at(s, p, st),
    ensures
        ({
            let x = target_of(st);
            let e = p + x.len();
            &&& is_name(x)
            &&& p < s.len()
            &&& (spec_is_letter(s[p]) || s[p] == '_')
            &&& blanks(s, p, p) && blank_stop(s, p)
            &&& s.subrange(p, e) == x
            &&& ident_end(s, p) == e
            &&& s[e] == ' ' && s[e + 1] == ':' && s[e + 2] == '=' && s[e + 3] == ' '
            &&& blanks(s, e, e + 1) && blank_stop(s, e + 1)
            &&& s.subrange(e + 1, e + 3) == ":="@
            &&& blanks(s, e + 3, e + 4)
            &&& s.subrange(e + 4, p + simple_text(st).len()) == rhs_text(st)
            &&& p + simple_text(st).len() == e + 4 + rhs_text(st).len()
        }),
{
    let x = target_of(st);
    let e = p + x.len();
    let t = simple_text(st);
    reveal_strlit(" := ");
    reveal_strlit(":=");
    assert(" := "@.len() == 4);
    lemma_split(s, p, x + " := "@, rhs_text(st));
    lemma_split(s, p, x, " := "@);
    lemma_chars(s, p, x);
    lemma_chars(s, e, " := "@);
    assert(s[p] == x[0]);
    assert forall|i: int| p <= i < p + x.len() implies spec_is_ident_char(#[trigger] s[i]) by {
        assert(s[p + (i - p)] == x[i - p]);
    }
    assert(s[e] == " := "@[0]);
    lemma_ident_run(s, p, x.len() as int);
    assert(s[e + 1] == " := "@[1]);
    assert(s[e + 2] == " := "@[2]);
    assert(s[e + 3] == " := "@[3]);
    assert(":="@[0] == ':' && ":="@[1] == '=');
    assert(s.subrange(e + 1, e + 3) =~= ":="@);
}

/// The decimal representation of a number is made of digits and denotes it.
pub proof fn lemma_decimal_string(n: nat)
    ensures
        decimal_string(n).len() > 0,
        forall|i: int| 0 <= i < decimal_string(n).len() ==> '0' <= #[trigger] decimal_string(n)[i] <= '9',
        decimal_value(decimal_string(n)) == n,
    decreases n,
{
    if n >= 10 {
        lemma_decimal_string(n / 10);
        let d = decimal_string(n / 10);
        let t = decimal_string(n);
        assert(t == d.push(crate::uint::digit_char(n % 10)));
        assert(t.drop_last() =~= d);
        assert forall|i: int| 0 <= i < t.len() implies '0' <= #[trigger] t[i] <= '9' by {
            if i < d.len() {
                assert(t[i] == d[i]);
            }
        }
        assert(n == (n / 10) * 10 + n % 10);
        assert((crate::uint::digit_char(n % 10) as nat) == ('0' as nat) + n % 10);
        assert(t.last() == crate::uint::digit_char(n % 10));
        assert(decimal_value(t) == decimal_value(t.drop_last()) * 10 + ((t.last() as nat) - ('0' as nat)) as nat);
        assert(decimal_value(t.drop_last()) == n / 10);
        assert(((t.last() as nat) - ('0' as nat)) as nat == n % 10);
    } else {
        let t = decimal_string(n);
        assert((crate::uint::digit_char(n) as nat) == ('0' as nat) + n);
        assert(t.drop_last() =~= Seq::<char>::empty());
        assert(t.last() == crate::uint::digit_char(n));
        assert(decimal_value(t) == decimal_value(t.drop_last()) * 10 + ((t.last() as nat) - ('0' as nat)) as nat);
        assert(decimal_value(t.drop_last()) == 0);
    }
}

/// A run of `n` identifier characters from `p`, then a character that ends it.
proof fn lemma_ident_run(s: Seq<char>, p: int, n: int)
    requires
        0 <= p,
        0 <= n,
        p + n <= s.len(),
        forall|i: int| p <= i < p + n ==> spec_is_ident_char(#[trigger] s[i]),
        p + n == s.len() || !spec_is_ident_char(s[p + n]),
    ensures
        ident_end(s, p) == p + n,
    decreases n,
{
    if n > 0 {
        lemma_ident_run(s, p + 1, n - 1);
    }
}

/// A run of `n` digits from `p`, then a character that ends it.
proof fn lemma_digit_run(s: Seq<char>, p: int, n: int)
    requires
        0 <= p,
        0 <= n,
        p + n <= s.len(),
        forall|i: int| p <= i < p + n ==> '0' <= #[trigger] s[i] <= '9',
        p + n == s.len() || !('0' <= s[p + n] <= '9'),
    ensures
        digits_end(s, p) == p + n,
    decreases n,
{
    if n > 0 {
        lemma_digit_run(s, p + 1, n - 1);
    }
}

/// A name followed by a character that ends it is no keyword at its position.
proof fn lemma_name_not_keyword(s: Seq<char>, p: int, x: Seq<char>, kw: Seq<char>)
    requires
        0 <= p,
        p + x.len() < s.len(),
        s.subrange(p, p + x.len()) == x,
        is_name(x),
        !spec_is_ident_char(s[p + x.len()]),
        kw.len() > 0,
        forall|i: int| 0 <= i < kw.len() ==> spec_is_letter(#[trigger] kw[i]),
        x != kw,
    ensures
        !(p + kw.len() <= s.len() && s.subrange(p, p + kw.len()) == kw
            && (p + kw.len() == s.len() || !spec_is_ident_char(s[p + kw.len()]))),
{
    if p + kw.len() <= s.len() && s.subrange(p, p + kw.len()) == kw {
        if kw.len() < x.len() {
            assert(s[p + kw.len()] == x[kw.len() as int]) by {
                assert(s.subrange(p, p + x.len())[kw.len() as int] == s[p + kw.len()]);
            }
        } else if kw.len() > x.len() {
            assert(s[p + x.len()] == kw[x.len() as int]) by {
                assert(s.subrange(p, p + kw.len())[x.len() as int] == s[p + x.len()]);
            }
        } else {
            assert(x =~= kw);
        }
    }
}

/// Where the right-hand side of a simple statement at `p` starts.
pub open spec fn rhs_start(p: int, st: Simple) -> int {
    p + target_of(st).len() + 4
}

/// Where the line of a simple statement at `p` ends.
pub open spec fn line_end(p: int, st: Simple) -> int {
    p + simple_text(st).len()
}

/// The characters after a statement's text: the end or a line break, neither of which
/// continues a name or a number.
proof fn lemma_after(s: Seq<char>, p: int, st: Simple)
    requires
        stmt_at(s, p, st),
    ensures
        line_end(p, st) <= s.len(),
        line_end(p, st) == s.len() || s[line_end(p, st)] == '\n',
        line_end(p, st) == s.len() || !spec_is_ident_char(s[line_end(p, st)]),
        line_end(p, st) == s.len() || !('0' <= s[line_end(p, st)] <= '9'),
{
}

/// A right-hand side that is a number: its digits run to the end of the line.
proof fn lemma_rhs_value(s: Seq<char>, p: int, st: Simple)
    requires
        stmt_at(s, p, st),
        st is Value,
    ensures
        ({
            let f = rhs_start(p, st);
            &&& f < s.len()
            &&& '0' <= s[f] <= '9'
            &&& blank_stop(s, f)
            &&& digits_end(s, f) == line_end(p, st)
            &&& decimal_value(s.subrange(f, line_end(p, st))) == st->Value_n
        }),
{
    lemma_head(s, p, st);
    lemma_after(s, p, st);
    let f = rhs_start(p, st);
    let ds = decimal_string(st->Value_n);
    lemma_decimal_string(st->Value_n);
    lemma_chars(s, f, ds);
    assert(s[f + 0] == ds[0]);
    assert forall|i: int| f <= i < f + ds.len() implies '0' <= #[trigger] s[i] <= '9' by {
        assert(s[f + (i - f)] == ds[i - f]);
    }
    lemma_digit_run(s, f, ds.len() as int);
}

/// A right-hand side that is a name: it runs to the end of the line.
proof fn lemma_rhs_copy(s: Seq<char>, p: int, st: Simple)
    requires
        stmt_at(s, p, st),
        st is Copy,
    ensures
        ({
            let f = rhs_start(p, st);
            &&& f < s.len()
            &&& (spec_is_letter(s[f]) || s[f] == '_')
            &&& blank_stop(s, f)
            &&& ident_end(s, f) == line_end(p, st)
            &&& s.subrange(f, line_end(p, st)) == st->Copy_y
        }),
{
    lemma_head(s, p, st);
    lemma_after(s, p, st);
    let f = rhs_start(p, st);
    let y = st->Copy_y;
    lemma_chars(s, f, y);
    assert(s[f + 0] == y[0]);
    assert forall|i: int| f <= i < f + y.len() implies spec_is_ident_char(#[trigger] s[i]) by {
        assert(s[f + (i - f)] == y[i - f]);
    }
    lemma_ident_run(s, f, y.len() as int);
}

/// The left operand of an operation statement.
pub open spec fn op_lhs(st: Simple) -> Seq<char> {
    match st {
        Simple::Bin { y, .. } => y,
        Simple::Num { y, .. } => y,
        _ => Seq::empty(),
    }
}

/// The operator of an operation statement.
pub open spec fn op_verb(st: Simple) -> OperatorVerb {
    match st {
        Simple::Bin { verb, .. } => verb,
        Simple::Num { verb, .. } => verb,
        _ => OperatorVerb::Plus,
    }
}

/// Where the right operand of an operation statement at `p` starts.
pub open spec fn operand_start(p: int, st: Simple) -> int {
    rhs_start(p, st) + op_lhs(st).len() + 3
}

/// A right-hand side `y op z` or `y op n`: the name, the operator between single blanks,
/// and the operand that runs to the end of the line.
proof fn lemma_rhs_op(s: Seq<char>, p: int, st: Simple)
    requires
        stmt_at(s, p, st),
        st is Bin || st is Num,
    ensures
        ({
            let f = rhs_start(p, st);
            let y = op_lhs(st);
            let g = f + y.len();
            let o = operand_start(p, st);
            &&& f < s.len()
            &&& (spec_is_letter(s[f]) || s[f] == '_')
            &&& blank_stop(s, f)
            &&& ident_end(s, f) == g
            &&& s.subrange(f, g) == y
            &&& o == g + 3
            &&& o < s.len()
            &&& s[g] == ' ' && s[g + 2] == ' '
            &&& blanks(s, g, g + 1) && blank_stop(s, g + 1)
            &&& s[g + 1] == operator_verb_text(op_verb(st))[0]
            &&& s.subrange(g + 1, g + 2) == operator_verb_text(op_verb(st))
            &&& blanks(s, g + 2, o) && blank_stop(s, o)
            &&& (st is Bin ==> (spec_is_letter(s[o]) || s[o] == '_') && ident_end(s, o) == line_end(p, st)
                && s.subrange(o, line_end(p, st)) == st->Bin_z)
            &&& (st is Num ==> '0' <= s[o] <= '9' && digits_end(s, o) == line_end(p, st)
                && decimal_value(s.subrange(o, line_end(p, st))) == st->Num_n)
        }),
{
    lemma_head(s, p, st);
    lemma_after(s, p, st);
    reveal_strlit(" ");
    reveal_strlit("+");
    reveal_strlit("-");
    reveal_strlit("*");
    let f = rhs_start(p, st);
    let y = op_lhs(st);
    let vt = operator_verb_text(op_verb(st));
    assert(vt.len() == 1);
    assert(" "@.len() == 1);
    let w = match st {
        Simple::Bin { z, .. } => z,
        _ => decimal_string(st->Num_n),
    };
    let rhs = rhs_text(st);
    assert(rhs =~= y + " "@ + vt + " "@ + w);
    let g = f + y.len();
    let o = g + 3;
    lemma_chars(s, f, rhs);
    assert(s[f + 0] == rhs[0]);
    assert(rhs[0] == y[0]);
    assert forall|i: int| f <= i < g implies spec_is_ident_char(#[trigger] s[i]) by {
        assert(s[f + (i - f)] == rhs[i - f]);
        assert(rhs[i - f] == y[i - f]);
    }
    assert(s[f + y.len()] == rhs[y.len() as int]);
    assert(rhs[y.len() as int] == ' ');
    assert(s[f + (y.len() + 1)] == rhs[(y.len() + 1) as int]);
    assert(rhs[(y.len() + 1) as int] == vt[0]);
    assert(s[f + (y.len() + 2)] == rhs[(y.len() + 2) as int]);
    assert(rhs[(y.len() + 2) as int] == ' ');
    lemma_ident_run(s, f, y.len() as int);
    assert(s.subrange(f, g) =~= y) by {
        assert forall|i: int| 0 <= i < y.len() implies s.subrange(f, g)[i] == y[i] by {
            assert(s[f + i] == rhs[i]);
        }
    }
    assert(s.subrange(g + 1, g + 2) =~= vt);
    assert(rhs.len() == y.len() + 3 + w.len());
    assert forall|i: int| 0 <= i < w.len() implies s[o + i] == #[trigger] w[i] by {
        assert(s[f + (y.len() + 3 + i)] == rhs[y.len() + 3 + i]);
    }
    assert(s[o + 0] == w[0]);
    if st is Bin {
        assert forall|i: int| o <= i < o + w.len() implies spec_is_ident_char(#[trigger] s[i]) by {
            assert(s[o + (i - o)] == w[i - o]);
        }
        lemma_ident_run(s, o, w.len() as int);
        assert(s.subrange(o, o + w.len()) =~= w) by {
            assert forall|i: int| 0 <= i < w.len() implies s.subrange(o, o + w.len())[i] == w[i] by {
                assert(s[o + i] == w[i]);
            }
        }
    } else {
        lemma_decimal_string(st->Num_n);
        assert forall|i: int| o <= i < o + w.len() implies '0' <= #[trigger] s[i] <= '9' by {
            assert(s[o + (i - o)] == w[i - o]);
        }
        lemma_digit_run(s, o, w.len() as int);
        assert(s.subrange(o, o + w.len()) =~= w) by {
            assert forall|i: int| 0 <= i < w.len() implies s.subrange(o, o + w.len())[i] == w[i] by {
                assert(s[o + i] == w[i]);
            }
        }
    }
}

/// Where a keyword `kw` stands at `p`, as the parser checks it.
pub open spec fn keyword_at(s: Seq<char>, p: int, kw: Seq<char>) -> bool {
    p + kw.len() <= s.len() && s.subrange(p, p + kw.len()) == kw
        && (p + kw.len() == s.len() || !spec_is_ident_char(s[p + kw.len()]))
}

/// No keyword stands where a simple statement starts.
proof fn lemma_no_keyword_at(s: Seq<char>, p: int, st: Simple)
    requires
        stmt_at(s, p, st),
    ensures
        !keyword_at(s, p, "LOOP"@),
        !keyword_at(s, p, "WHILE"@),
        !keyword_at(s, p, "IF"@),
        !keyword_at(s, p, "END"@),
        !keyword_at(s, p, "ELSE"@),
        !keyword_at(s, p, "FROM"@),
        !keyword_at(s, p, "FN"@),
        !(p + 3 <= s.len() && s.subrange(p, p + 3) == "..."@),
{
    lemma_head(s, p, st);
    lemma_no_keyword_name(s, p, target_of(st));
}

/// No keyword stands where a name followed by a blank does.
proof fn lemma_no_keyword_name(s: Seq<char>, p: int, x: Seq<char>)
    requires
        is_name(x),
        0 <= p,
        p + x.len() < s.len(),
        s.subrange(p, p + x.len()) == x,
        s[p + x.len()] == ' ',
    ensures
        !keyword_at(s, p, "LOOP"@),
        !keyword_at(s, p, "WHILE"@),
        !keyword_at(s, p, "IF"@),
        !keyword_at(s, p, "END"@),
        !keyword_at(s, p, "ELSE"@),
        !keyword_at(s, p, "FROM"@),
        !keyword_at(s, p, "FN"@),
        !(p + 3 <= s.len() && s.subrange(p, p + 3) == "..."@),
{
    lemma_chars(s, p, x);
    assert(s[p + 0] == x[0]);
    reveal_strlit("LOOP");
    reveal_strlit("WHILE");
    reveal_strlit("IF");
    reveal_strlit("END");
    reveal_strlit("ELSE");
    reveal_strlit("FROM");
    reveal_strlit("FN");
    reveal_strlit("...");
    assert(s[p + x.len()] == ' ');
    assert(forall|i: int| 0 <= i < 4 ==> spec_is_letter(#[trigger] "LOOP"@[i]));
    assert(forall|i: int| 0 <= i < 5 ==> spec_is_letter(#[trigger] "WHILE"@[i]));
    assert(forall|i: int| 0 <= i < 2 ==> spec_is_letter(#[trigger] "IF"@[i]));
    assert(forall|i: int| 0 <= i < 3 ==> spec_is_letter(#[trigger] "END"@[i]));
    assert(forall|i: int| 0 <= i < 4 ==> spec_is_letter(#[trigger] "ELSE"@[i]));
    assert(forall|i: int| 0 <= i < 4 ==> spec_is_letter(#[trigger] "FROM"@[i]));
    assert(forall|i: int| 0 <= i < 2 ==> spec_is_letter(#[trigger] "FN"@[i]));
    lemma_name_not_keyword(s, p, x, "LOOP"@);
    lemma_name_not_keyword(s, p, x, "WHILE"@);
    lemma_name_not_keyword(s, p, x, "IF"@);
    lemma_name_not_keyword(s, p, x, "END"@);
    lemma_name_not_keyword(s, p, x, "ELSE"@);
    lemma_name_not_keyword(s, p, x, "FROM"@);
    lemma_name_not_keyword(s, p, x, "FN"@);
    if p + 3 <= s.len() && s.subrange(p, p + 3) == "..."@ {
        assert(s.subrange(p, p + 3)[0] == s[p]);
    }
}

/// A statement of a LOOP/WHILE program: `...` (which does nothing), a simple statement,
/// `LOOP x DO` or
/// `WHILE condition DO` with a body of statements and `END`, or `IF condition THEN` with
/// statements, then `ELSE` and statements where `els` has any, and `END`, or a call
/// `x := f(args)`.
pub enum Stmt {
    Pass,
    Simple(Simple),
    Loop { x: Seq<char>, body: Seq<Stmt> },
    While { cond: Cond, body: Seq<Stmt> },
    If { cond: Cond, then: Seq<Stmt>, els: Seq<Stmt> },
    Call { x: Seq<char>, f: Seq<char>, args: Seq<Side> },
}

/// The text of a statement: a LOOP puts `LOOP x DO` on a line, then its body, each
/// statement on a line of its own, then `END`.
pub open spec fn stmt_text(st: Stmt) -> Seq<char>
    decreases st,
{
    match st {
        Stmt::Pass => "..."@,
        Stmt::Simple(s) => simple_text(s),
        Stmt::Loop { x, body } => "LOOP "@ + x + " DO\n"@ + body_text(body) + "END"@,
        Stmt::While { cond, body } => "WHILE "@ + cond_text(cond) + " DO\n"@ + body_text(body) + "END"@,
        Stmt::If { cond, then, els } => "IF "@ + cond_text(cond) + " THEN\n"@ + body_text(then)
            + (if els.len() == 0 { Seq::empty() } else { "ELSE\n"@ + body_text(els) }) + "END"@,
        Stmt::Call { x, f, args } => x + " := "@ + f + paren_text(args),
    }
}

/// The text of a list of statements, each on a line of its own, each line ended by a
/// line break.
pub open spec fn body_text(sts: Seq<Stmt>) -> Seq<char>
    decreases sts,
{
    if sts.len() == 0 {
        Seq::empty()
    } else {
        body_text(sts.drop_last()) + stmt_text(sts.last()) + "\n"@
    }
}

/// A statement whose names are variable names and whose LOOPs have bodies.
pub open spec fn stmt_ok(st: Stmt) -> bool
    decreases st,
{
    match st {
        Stmt::Pass => true,
        Stmt::Simple(s) => simple_ok(s),
        Stmt::Loop { x, body } => is_name(x) && body.len() > 0
            && forall|i: int| 0 <= i < body.len() ==> stmt_ok(#[trigger] body[i]),
        Stmt::While { cond, body } => cond_ok(cond) && body.len() > 0
            && forall|i: int| 0 <= i < body.len() ==> stmt_ok(#[trigger] body[i]),
        Stmt::If { cond, then, els } => cond_ok(cond) && then.len() > 0
            && (forall|i: int| 0 <= i < then.len() ==> stmt_ok(#[trigger] then[i]))
            && forall|i: int| 0 <= i < els.len() ==> stmt_ok(#[trigger] els[i]),
        Stmt::Call { x, f, args } => is_name(x) && is_name(f) && forall|i: int| 0 <= i < args.len() ==> side_ok(#[trigger] args[i]),
    }
}

/// `h` is what the parser makes of the statement `st`: the simple statement it stands
/// for, a LOOP over `x` (a WHILE on the condition) whose body holds what the parser
/// makes of each statement of the body, an IF on the condition whose branches do, or a
/// call of `f` with the arguments.
pub open spec fn parsed_as(h: Hir, st: Stmt) -> bool
    decreases st,
{
    match st {
        Stmt::Pass => h is NoOp,
        Stmt::Simple(s) => simple_of(h) == Some(s),
        Stmt::Loop { x, body } => match h {
            Hir::Control(Control::Loop { ident, terms, .. }) => (match *ident {
                Hir::Expr(e) => e@ == SExpr::Ident(x),
                _ => false,
            }) && (match *terms {
                Hir::Control(Control::Terms(v)) => v@.len() == body.len()
                    && forall|i: int| 0 <= i < body.len() ==> parsed_as(#[trigger] v@[i], body[i]),
                _ => false,
            }),
            _ => false,
        },
        Stmt::While { cond, body } => match h {
            Hir::Control(Control::While { comp, terms, .. }) => (match *comp {
                Hir::Expr(e) => e@ == cond_expr(cond),
                _ => false,
            }) && (match *terms {
                Hir::Control(Control::Terms(v)) => v@.len() == body.len()
                    && forall|i: int| 0 <= i < body.len() ==> parsed_as(#[trigger] v@[i], body[i]),
                _ => false,
            }),
            _ => false,
        },
        Stmt::If { cond, then, els } => match h {
            Hir::Macro(Macro::Conditional { comp, if_terms, else_terms, .. }) => (*comp)@ == cond_expr(cond)
                && (match *if_terms {
                Hir::Control(Control::Terms(v)) => v@.len() == then.len()
                    && forall|i: int| 0 <= i < then.len() ==> parsed_as(#[trigger] v@[i], then[i]),
                _ => false,
            }) && (match *else_terms {
                None => els.len() == 0,
                Some(Hir::Control(Control::Terms(w))) => els.len() > 0 && w@.len() == els.len()
                    && forall|i: int| 0 <= i < els.len() ==> parsed_as(#[trigger] w@[i], els[i]),
                _ => false,
            }),
            _ => false,
        },
        Stmt::Call { x, f, args } => match h {
            Hir::Function(Func::Call { lhs, rhs, .. }) => (*lhs)@ == SExpr::Ident(x) && (*rhs.ident)@ == SExpr::Ident(f)
                && rhs.args@.len() == args.len()
                && forall|i: int| 0 <= i < args.len() ==> (#[trigger] rhs.args@[i])@ == side_expr(args[i]),
            _ => false,
        },
    }
}

/// A program: at least one statement, each with variable names and LOOP bodies.
pub open spec fn program_ok(sts: Seq<Stmt>) -> bool {
    sts.len() > 0 && forall|i: int| 0 <= i < sts.len() ==> stmt_ok(#[trigger] sts[i])
}

/// The statement `st` stands at `p`, on a line of its own from there on.
pub open spec fn stmt_line_at(s: Seq<char>, p: int, st: Stmt) -> bool {
    stmt_ok(st) && line_at(s, p, stmt_text(st))
}

/// The text of the program `sts` stands at `p`.
pub open spec fn body_at(s: Seq<char>, p: int, sts: Seq<Stmt>) -> bool {
    &&& program_ok(sts)
    &&& 0 <= p
    &&& p + body_text(sts).len() <= s.len()
    &&& s.subrange(p, p + body_text(sts).len()) == body_text(sts)
}

/// Where the statement `k` of the program at `p` starts.
pub open spec fn line_start(p: int, sts: Seq<Stmt>, k: int) -> int {
    p + body_text(sts.take(k)).len()
}

/// The text of the first statements is a prefix of the program's text.
proof fn lemma_body_prefix(sts: Seq<Stmt>, j: int)
    requires
        0 <= j <= sts.len(),
    ensures
        body_text(sts.take(j)).len() <= body_text(sts).len(),
        body_text(sts).subrange(0, body_text(sts.take(j)).len() as int) == body_text(sts.take(j)),
    decreases sts.len(),
{
    if j == sts.len() {
        assert(sts.take(j) =~= sts);
    } else {
        let d = sts.drop_last();
        lemma_body_prefix(d, j);
        assert(d.take(j) =~= sts.take(j));
        let pt = body_text(sts);
        let pd = body_text(d);
        assert(pt.subrange(0, pd.len() as int) =~= pd);
        let m = body_text(sts.take(j)).len() as int;
        assert(pt.subrange(0, m) =~= pd.subrange(0, m));
    }
}

/// One more statement adds its line.
proof fn lemma_body_step(sts: Seq<Stmt>, k: int)
    requires
        0 <= k < sts.len(),
    ensures
        body_text(sts.take(k + 1)) == body_text(sts.take(k)) + stmt_text(sts[k]) + "\n"@,
{
    assert(sts.take(k + 1).drop_last() =~= sts.take(k));
    assert(sts.take(k + 1).last() == sts[k]);
}

/// The statement `k` of a program stands on a line of its own, and the next starts after
/// its line break.
proof fn lemma_body_line(s: Seq<char>, p: int, sts: Seq<Stmt>, k: int)
    requires
        body_at(s, p, sts),
        0 <= k < sts.len(),
    ensures
        stmt_line_at(s, line_start(p, sts, k), sts[k]),
        line_start(p, sts, k) + stmt_text(sts[k]).len() < s.len(),
        s[line_start(p, sts, k) + stmt_text(sts[k]).len()] == '\n',
        line_start(p, sts, k + 1) == line_start(p, sts, k) + stmt_text(sts[k]).len() + 1,
        line_start(p, sts, 0) == p,
        line_start(p, sts, sts.len() as int) == p + body_text(sts).len(),
{
    reveal_strlit("\n");
    lemma_body_step(sts, k);
    lemma_body_prefix(sts, k + 1);
    assert(sts.take(0) =~= Seq::<Stmt>::empty());
    assert(sts.take(sts.len() as int) =~= sts);
    let q = line_start(p, sts, k);
    let t = stmt_text(sts[k]);
    let a = body_text(sts.take(k));
    let b = body_text(sts.take(k + 1));
    let pt = body_text(sts);
    assert(b.len() == a.len() + t.len() + 1);
    assert forall|i: int| 0 <= i < b.len() implies s[p + i] == #[trigger] b[i] by {
        assert(s.subrange(p, p + pt.len())[i] == s[p + i]);
        assert(pt.subrange(0, b.len() as int)[i] == pt[i]);
    }
    assert(s.subrange(q, q + t.len()) =~= t) by {
        assert forall|i: int| 0 <= i < t.len() implies s.subrange(q, q + t.len())[i] == t[i] by {
            assert(s[p + (a.len() + i)] == b[a.len() + i]);
        }
    }
    assert(s[p + (a.len() + t.len())] == b[(a.len() + t.len()) as int]);
    assert(stmt_ok(sts[k]));
}

/// Where a statement starts: a plain character, no blank before it, and none of the
/// keywords that end a list or start an import or a declaration.
proof fn lemma_stmt_start(s: Seq<char>, p: int, st: Stmt)
    requires
        stmt_line_at(s, p, st),
    ensures
        0 <= p < s.len(),
        plain_char(s[p]),
        s[p] != '\n',
        blanks(s, p, p),
        blank_stop(s, p),
        !keyword_at(s, p, "END"@),
        !keyword_at(s, p, "ELSE"@),
        !keyword_at(s, p, "FROM"@),
        !keyword_at(s, p, "FN"@),
{
    match st {
        Stmt::Pass => {
            reveal_strlit("...");
            reveal_strlit("END");
            reveal_strlit("ELSE");
            reveal_strlit("FROM");
            reveal_strlit("FN");
            lemma_chars(s, p, "..."@);
            assert(s[p + 0] == "..."@[0]);
            if keyword_at(s, p, "END"@) {
                assert(s.subrange(p, p + 3)[0] == s[p]);
            }
            if keyword_at(s, p, "ELSE"@) {
                assert(s.subrange(p, p + 4)[0] == s[p]);
            }
            if keyword_at(s, p, "FROM"@) {
                assert(s.subrange(p, p + 4)[0] == s[p]);
            }
            if keyword_at(s, p, "FN"@) {
                assert(s.subrange(p, p + 2)[0] == s[p]);
            }
        },
        Stmt::Simple(x) => {
            lemma_head(s, p, x);
            lemma_no_keyword_at(s, p, x);
        },
        Stmt::Call { x, .. } => {
            lemma_call_head(s, p, st);
            lemma_no_keyword_name(s, p, x);
        },
        Stmt::If { .. } => {
            lemma_if_head(s, p, st);
            reveal_strlit("END");
            reveal_strlit("ELSE");
            reveal_strlit("FROM");
            reveal_strlit("FN");
            reveal_strlit("IF");
            assert(s.subrange(p, p + 2)[0] == s[p]);
            if keyword_at(s, p, "END"@) {
                assert(s.subrange(p, p + 3)[0] == s[p]);
            }
            if keyword_at(s, p, "ELSE"@) {
                assert(s.subrange(p, p + 4)[0] == s[p]);
            }
            if keyword_at(s, p, "FROM"@) {
                assert(s.subrange(p, p + 4)[0] == s[p]);
            }
            if keyword_at(s, p, "FN"@) {
                assert(s.subrange(p, p + 2)[0] == s[p]);
            }
        },
        Stmt::While { .. } => {
            lemma_while_head(s, p, st);
            reveal_strlit("END");
            reveal_strlit("ELSE");
            reveal_strlit("FROM");
            reveal_strlit("FN");
            reveal_strlit("WHILE");
            assert(s.subrange(p, p + 5)[0] == s[p]);
            if keyword_at(s, p, "END"@) {
                assert(s.subrange(p, p + 3)[0] == s[p]);
            }
            if keyword_at(s, p, "ELSE"@) {
                assert(s.subrange(p, p + 4)[0] == s[p]);
            }
            if keyword_at(s, p, "FROM"@) {
                assert(s.subrange(p, p + 4)[0] == s[p]);
            }
            if keyword_at(s, p, "FN"@) {
                assert(s.subrange(p, p + 2)[0] == s[p]);
            }
        },
        Stmt::Loop { .. } => {
            lemma_loop_head(s, p, st);
            reveal_strlit("END");
            reveal_strlit("ELSE");
            reveal_strlit("FROM");
            reveal_strlit("FN");
            reveal_strlit("LOOP");
            assert(s.subrange(p, p + 4)[0] == s[p]);
            if keyword_at(s, p, "END"@) {
                assert(s.subrange(p, p + 3)[0] == s[p]);
            }
            if keyword_at(s, p, "ELSE"@) {
                assert(s.subrange(p, p + 4)[0] == s[p]);
            }
            if keyword_at(s, p, "FROM"@) {
                assert(s.subrange(p, p + 4)[0] == s[p]);
            }
            if keyword_at(s, p, "FN"@) {
                assert(s.subrange(p, p + 2)[0] == s[p]);
            }
        },
    }
}

/// What a LOOP at `p` looks like: `LOOP`, a blank, the variable, a blank, `DO`, a line
/// break, the body, and `END` at the end of the line.
proof fn lemma_loop_head(s: Seq<char>, p: int, st: Stmt)
    requires
        stmt_line_at(s, p, st),
        st is Loop,
    ensures
        ({
            let x = st->Loop_x;
            let body = st->Loop_body;
            let e = p + 5 + x.len();
            let q = e + 4 + body_text(body).len();
            &&& 0 <= p && q + 3 == p + stmt_text(st).len()
            &&& q + 3 <= s.len()
            &&& (q + 3 == s.len() || s[q + 3] == '\n')
            &&& keyword_at(s, p, "LOOP"@)
            &&& s.subrange(p, p + 4) == "LOOP"@
            &&& s[p] == 'L'
            &&& blanks(s, p + 4, p + 5) && blank_stop(s, p + 5)
            &&& (spec_is_letter(s[p + 5]) || s[p + 5] == '_')
            &&& ident_end(s, p + 5) == e
            &&& s.subrange(p + 5, e) == x
            &&& blanks(s, e, e + 1) && blank_stop(s, e + 1)
            &&& keyword_at(s, e + 1, "DO"@)
            &&& s[e + 3] == '\n'
            &&& body_at(s, e + 4, body)
            &&& blank_stop(s, q)
            &&& keyword_at(s, q, "END"@)
            &&& s[q] == 'E'
        }),
{
    reveal_strlit("LOOP ");
    reveal_strlit("LOOP");
    reveal_strlit(" DO\n");
    reveal_strlit("DO");
    reveal_strlit("END");
    let x = st->Loop_x;
    let body = st->Loop_body;
    let bt = body_text(body);
    let t = stmt_text(st);
    let e = p + 5 + x.len();
    let q = e + 4 + bt.len();
    assert(t =~= "LOOP "@ + x + " DO\n"@ + bt + "END"@);
    assert(t.len() == 5 + x.len() + 4 + bt.len() + 3);
    lemma_chars(s, p, t);
    assert forall|i: int| 0 <= i < 5 implies s[p + i] == #[trigger] "LOOP "@[i] by {
        assert(t[i] == "LOOP "@[i]);
    }
    assert forall|i: int| 0 <= i < x.len() implies s[p + 5 + i] == #[trigger] x[i] by {
        assert(s[p + (5 + i)] == t[5 + i]);
        assert(t[5 + i] == x[i]);
    }
    assert forall|i: int| 0 <= i < 4 implies s[e + i] == #[trigger] " DO\n"@[i] by {
        assert(s[p + (5 + x.len() + i)] == t[5 + x.len() + i]);
        assert(t[5 + x.len() + i] == " DO\n"@[i]);
    }
    assert forall|i: int| 0 <= i < bt.len() implies s[e + 4 + i] == #[trigger] bt[i] by {
        assert(s[p + (5 + x.len() + 4 + i)] == t[5 + x.len() + 4 + i]);
        assert(t[5 + x.len() + 4 + i] == bt[i]);
    }
    assert forall|i: int| 0 <= i < 3 implies s[q + i] == #[trigger] "END"@[i] by {
        assert(s[p + (5 + x.len() + 4 + bt.len() + i)] == t[5 + x.len() + 4 + bt.len() + i]);
        assert(t[5 + x.len() + 4 + bt.len() + i] == "END"@[i]);
    }
    assert(s[p + 0] == "LOOP "@[0]);
    assert(s[p + 1] == "LOOP "@[1]);
    assert(s[p + 2] == "LOOP "@[2]);
    assert(s[p + 3] == "LOOP "@[3]);
    assert(s[p + 4] == "LOOP "@[4]);
    assert(s.subrange(p, p + 4) =~= "LOOP"@);
    assert(s[p + 5 + 0] == x[0]);
    assert forall|i: int| p + 5 <= i < e implies spec_is_ident_char(#[trigger] s[i]) by {
        assert(s[p + 5 + (i - p - 5)] == x[i - p - 5]);
    }
    assert(s[e + 0] == " DO\n"@[0]);
    assert(s[e + 1] == " DO\n"@[1]);
    assert(s[e + 2] == " DO\n"@[2]);
    assert(s[e + 3] == " DO\n"@[3]);
    lemma_ident_run(s, p + 5, x.len() as int);
    assert(s.subrange(p + 5, e) =~= x) by {
        assert forall|i: int| 0 <= i < x.len() implies s.subrange(p + 5, e)[i] == x[i] by {
            assert(s[p + 5 + i] == x[i]);
        }
    }
    assert(s.subrange(e + 1, e + 3) =~= "DO"@);
    assert(s.subrange(e + 4, e + 4 + bt.len()) =~= bt) by {
        assert forall|i: int| 0 <= i < bt.len() implies s.subrange(e + 4, e + 4 + bt.len())[i] == bt[i] by {
            assert(s[e + 4 + i] == bt[i]);
        }
    }
    assert(s[q + 0] == "END"@[0]);
    assert(s[q + 1] == "END"@[1]);
    assert(s[q + 2] == "END"@[2]);
    assert(s.subrange(q, q + 3) =~= "END"@);
    assert(program_ok(body));
}

/// The text of the program `sts` stands from `p` to the end of `s`.
pub open spec fn program_at(s: Seq<char>, p: int, sts: Seq<Stmt>) -> bool {
    body_at(s, p, sts) && p + body_text(sts).len() == s.len()
}

/// Where a list of statements at `p` starts: after a line break there, if any.
pub open spec fn body_start(s: Seq<char>, p: int) -> int {
    if 0 <= p < s.len() && s[p] == '\n' { p + 1 } else { p }
}

/// A list ends at `q`: at the end of the source, at `END`, or (with `stop_else`) at `ELSE`.
pub open spec fn block_end(s: Seq<char>, q: int, stop_else: bool) -> bool {
    q == s.len() || keyword_at(s, q, "END"@) || (stop_else && keyword_at(s, q, "ELSE"@))
}

/// The program `sts` stands at `p` (after a line break, if any), up to the end of the
/// source, `END`, or (with `stop_else`) `ELSE`.
pub open spec fn block_at(s: Seq<char>, p: int, sts: Seq<Stmt>, stop_else: bool) -> bool {
    body_at(s, body_start(s, p), sts) && block_end(s, body_start(s, p) + body_text(sts).len(), stop_else)
}

/// The operator `verb` stands at `q`, followed by a blank.
pub open spec fn verb_at(s: Seq<char>, q: int, verb: ComparisonVerb) -> bool {
    &&& 0 <= q
    &&& q + comparison_verb_text(verb).len() < s.len()
    &&& s.subrange(q, q + comparison_verb_text(verb).len()) == comparison_verb_text(verb)
    &&& s[q + comparison_verb_text(verb).len()] == ' '
}

/// Two characters at `q` are a text of two characters when each is.
proof fn lemma_two(s: Seq<char>, q: int, t: Seq<char>)
    requires
        0 <= q,
        t.len() == 2,
    ensures
        (q + 2 <= s.len() && s.subrange(q, q + 2) == t) == (q + 2 <= s.len() && s[q] == t[0] && s[q + 1] == t[1]),
{
    if q + 2 <= s.len() && s[q] == t[0] && s[q + 1] == t[1] {
        assert(s.subrange(q, q + 2) =~= t);
    }
    if q + 2 <= s.len() && s.subrange(q, q + 2) == t {
        assert(s.subrange(q, q + 2)[0] == s[q]);
        assert(s.subrange(q, q + 2)[1] == s[q + 1]);
    }
}

/// One character at `q` is a text of one character when it is that character.
proof fn lemma_one(s: Seq<char>, q: int, t: Seq<char>)
    requires
        0 <= q,
        t.len() == 1,
    ensures
        (q + 1 <= s.len() && s.subrange(q, q + 1) == t) == (q + 1 <= s.len() && s[q] == t[0]),
{
    if q + 1 <= s.len() && s[q] == t[0] {
        assert(s.subrange(q, q + 1) =~= t);
    }
    if q + 1 <= s.len() && s.subrange(q, q + 1) == t {
        assert(s.subrange(q, q + 1)[0] == s[q]);
    }
}

/// The characters of an operator at `q`, and the blank after it.
proof fn lemma_verb_chars(s: Seq<char>, q: int, verb: ComparisonVerb)
    requires
        verb_at(s, q, verb),
    ensures
        ({
            let t = comparison_verb_text(verb);
            &&& q + 2 < s.len() || (t.len() == 1 && q + 1 < s.len())
            &&& s[q] == t[0]
            &&& (t.len() == 2 ==> s[q + 1] == t[1] && s[q + 2] == ' ')
            &&& (t.len() == 1 ==> s[q + 1] == ' ')
            &&& !is_blank(s[q]) && s[q] != '#'
        }),
{
    reveal_strlit("==");
    reveal_strlit("!=");
    reveal_strlit(">=");
    reveal_strlit("<=");
    reveal_strlit(">");
    reveal_strlit("<");
    let t = comparison_verb_text(verb);
    assert(s.subrange(q, q + t.len())[0] == s[q]);
    if t.len() == 2 {
        assert(s.subrange(q, q + t.len())[1] == s[q + 1]);
    }
}

/// A side of a condition: a variable or a number.
pub enum Side {
    Name(Seq<char>),
    Num(nat),
}

/// The text of a side.
pub open spec fn side_text(sd: Side) -> Seq<char> {
    match sd {
        Side::Name(x) => x,
        Side::Num(n) => decimal_string(n),
    }
}

/// A side whose variable is a variable name.
pub open spec fn side_ok(sd: Side) -> bool {
    match sd {
        Side::Name(x) => is_name(x),
        Side::Num(_) => true,
    }
}

/// The expression a side is read as.
pub open spec fn side_expr(sd: Side) -> SExpr {
    match sd {
        Side::Name(x) => SExpr::Ident(x),
        Side::Num(n) => SExpr::Num(n),
    }
}

/// A condition `l verb r` of a WHILE.
pub struct Cond {
    pub l: Side,
    pub verb: ComparisonVerb,
    pub r: Side,
}

/// The text of a condition, with single blanks around the operator.
pub open spec fn cond_text(cd: Cond) -> Seq<char> {
    side_text(cd.l) + " "@ + comparison_verb_text(cd.verb) + " "@ + side_text(cd.r)
}

/// A condition whose variables are variable names.
pub open spec fn cond_ok(cd: Cond) -> bool {
    side_ok(cd.l) && side_ok(cd.r)
}

/// The expression a condition is read as.
pub open spec fn cond_expr(cd: Cond) -> SExpr {
    SExpr::Comparison { lhs: Box::new(side_expr(cd.l)), verb: cd.verb, rhs: Box::new(side_expr(cd.r)) }
}

/// A blank at `p`, then the condition `cd`, then a blank.
pub open spec fn cond_after(s: Seq<char>, p: int, cd: Cond) -> bool {
    &&& cond_ok(cd)
    &&& 0 <= p < s.len()
    &&& s[p] == ' '
    &&& p + 1 + cond_text(cd).len() < s.len()
    &&& s.subrange(p + 1, p + 1 + cond_text(cd).len()) == cond_text(cd)
    &&& s[p + 1 + cond_text(cd).len()] == ' '
}

/// What reading a side at `f` needs to know: where its name or its digits end.
pub open spec fn side_ready(s: Seq<char>, f: int, sd: Side) -> bool {
    &&& 0 <= f < s.len()
    &&& blank_stop(s, f)
    &&& match sd {
        Side::Name(x) => (spec_is_letter(s[f]) || s[f] == '_') && ident_end(s, f) == f + x.len()
            && s.subrange(f, f + x.len()) == x,
        Side::Num(n) => '0' <= s[f] <= '9' && digits_end(s, f) == f + decimal_string(n).len()
            && decimal_value(s.subrange(f, f + decimal_string(n).len())) == n,
    }
}

/// A side written at `f` and followed by a character that ends it is ready to be read.
proof fn lemma_side(s: Seq<char>, f: int, sd: Side)
    requires
        side_ok(sd),
        0 <= f,
        f + side_text(sd).len() < s.len(),
        s.subrange(f, f + side_text(sd).len()) == side_text(sd),
        !spec_is_ident_char(s[f + side_text(sd).len()]),
    ensures
        side_ready(s, f, sd),
{
    let w = side_text(sd);
    lemma_chars(s, f, w);
    match sd {
        Side::Name(x) => {
            assert(s[f + 0] == x[0]);
            assert forall|i: int| f <= i < f + x.len() implies spec_is_ident_char(#[trigger] s[i]) by {
                assert(s[f + (i - f)] == x[i - f]);
            }
            lemma_ident_run(s, f, x.len() as int);
        },
        Side::Num(n) => {
            lemma_decimal_string(n);
            assert(s[f + 0] == w[0]);
            assert forall|i: int| f <= i < f + w.len() implies '0' <= #[trigger] s[i] <= '9' by {
                assert(s[f + (i - f)] == w[i - f]);
            }
            lemma_digit_run(s, f, w.len() as int);
        },
    }
}

/// The parts of a condition written after a blank at `p`.
proof fn lemma_cond(s: Seq<char>, p: int, cd: Cond)
    requires
        cond_after(s, p, cd),
    ensures
        ({
            let f = p + 1;
            let g = f + side_text(cd.l).len();
            let h = g + 1 + comparison_verb_text(cd.verb).len();
            &&& blanks(s, p, f)
            &&& side_ready(s, f, cd.l)
            &&& s[g] == ' '
            &&& g < s.len()
            &&& verb_at(s, g + 1, cd.verb)
            &&& h < s.len() && s[h] == ' '
            &&& blanks(s, h, h + 1)
            &&& side_ready(s, h + 1, cd.r)
            &&& h + 1 + side_text(cd.r).len() == p + 1 + cond_text(cd).len()
        }),
{
    reveal_strlit(" ");
    let f = p + 1;
    let lt = side_text(cd.l);
    let vt = comparison_verb_text(cd.verb);
    let rt = side_text(cd.r);
    let ct = cond_text(cd);
    let g = f + lt.len();
    let h = g + 1 + vt.len();
    assert(ct =~= lt + " "@ + vt + " "@ + rt);
    assert(ct.len() == lt.len() + 1 + vt.len() + 1 + rt.len());
    lemma_chars(s, f, ct);
    assert forall|i: int| 0 <= i < lt.len() implies s[f + i] == #[trigger] lt[i] by {
        assert(ct[i] == lt[i]);
    }
    assert(s.subrange(f, f + lt.len()) =~= lt);
    assert(s[f + lt.len()] == ct[lt.len() as int]);
    lemma_side(s, f, cd.l);
    assert forall|i: int| 0 <= i < vt.len() implies s[g + 1 + i] == #[trigger] vt[i] by {
        assert(s[f + (lt.len() + 1 + i)] == ct[lt.len() + 1 + i]);
        assert(ct[lt.len() + 1 + i] == vt[i]);
    }
    assert(s.subrange(g + 1, g + 1 + vt.len()) =~= vt);
    assert(s[f + (lt.len() + 1 + vt.len())] == ct[(lt.len() + 1 + vt.len()) as int]);
    assert forall|i: int| 0 <= i < rt.len() implies s[h + 1 + i] == #[trigger] rt[i] by {
        assert(s[f + (lt.len() + 1 + vt.len() + 1 + i)] == ct[lt.len() + 1 + vt.len() + 1 + i]);
        assert(ct[lt.len() + 1 + vt.len() + 1 + i] == rt[i]);
    }
    assert(s.subrange(h + 1, h + 1 + rt.len()) =~= rt);
    lemma_side(s, h + 1, cd.r);
}

/// What a WHILE at `p` looks like: `WHILE`, the condition between blanks, `DO`, a line
/// break, the body, and `END` at the end of the line.
proof fn lemma_while_head(s: Seq<char>, p: int, st: Stmt)
    requires
        stmt_line_at(s, p, st),
        st is While,
    ensures
        ({
            let cd = st->While_cond;
            let body = st->While_body;
            let e = p + 6 + cond_text(cd).len();
            let q = e + 4 + body_text(body).len();
            &&& 0 <= p && q + 3 == p + stmt_text(st).len()
            &&& q + 3 <= s.len()
            &&& (q + 3 == s.len() || s[q + 3] == '\n')
            &&& keyword_at(s, p, "WHILE"@)
            &&& s[p] == 'W'
            &&& cond_after(s, p + 5, cd)
            &&& blanks(s, e, e + 1) && blank_stop(s, e + 1)
            &&& keyword_at(s, e + 1, "DO"@)
            &&& s[e + 3] == '\n'
            &&& body_at(s, e + 4, body)
            &&& blank_stop(s, q)
            &&& keyword_at(s, q, "END"@)
            &&& s[q] == 'E'
        }),
{
    reveal_strlit("WHILE ");
    reveal_strlit("WHILE");
    reveal_strlit(" DO\n");
    reveal_strlit("DO");
    reveal_strlit("END");
    let cd = st->While_cond;
    let ct = cond_text(cd);
    let body = st->While_body;
    let bt = body_text(body);
    let t = stmt_text(st);
    let e = p + 6 + ct.len();
    let q = e + 4 + bt.len();
    assert(t =~= "WHILE "@ + ct + " DO\n"@ + bt + "END"@);
    assert(t.len() == 6 + ct.len() + 4 + bt.len() + 3);
    lemma_chars(s, p, t);
    assert forall|i: int| 0 <= i < 6 implies s[p + i] == #[trigger] "WHILE "@[i] by {
        assert(t[i] == "WHILE "@[i]);
    }
    assert forall|i: int| 0 <= i < ct.len() implies s[p + 6 + i] == #[trigger] ct[i] by {
        assert(s[p + (6 + i)] == t[6 + i]);
        assert(t[6 + i] == ct[i]);
    }
    assert forall|i: int| 0 <= i < 4 implies s[e + i] == #[trigger] " DO\n"@[i] by {
        assert(s[p + (6 + ct.len() + i)] == t[6 + ct.len() + i]);
        assert(t[6 + ct.len() + i] == " DO\n"@[i]);
    }
    assert forall|i: int| 0 <= i < bt.len() implies s[e + 4 + i] == #[trigger] bt[i] by {
        assert(s[p + (6 + ct.len() + 4 + i)] == t[6 + ct.len() + 4 + i]);
        assert(t[6 + ct.len() + 4 + i] == bt[i]);
    }
    assert forall|i: int| 0 <= i < 3 implies s[q + i] == #[trigger] "END"@[i] by {
        assert(s[p + (6 + ct.len() + 4 + bt.len() + i)] == t[6 + ct.len() + 4 + bt.len() + i]);
        assert(t[6 + ct.len() + 4 + bt.len() + i] == "END"@[i]);
    }
    assert(s[p + 0] == "WHILE "@[0]);
    assert(s[p + 1] == "WHILE "@[1]);
    assert(s[p + 2] == "WHILE "@[2]);
    assert(s[p + 3] == "WHILE "@[3]);
    assert(s[p + 4] == "WHILE "@[4]);
    assert(s[p + 5] == "WHILE "@[5]);
    assert(s.subrange(p, p + 5) =~= "WHILE"@);
    assert(s.subrange(p + 6, p + 6 + ct.len()) =~= ct) by {
        assert forall|i: int| 0 <= i < ct.len() implies s.subrange(p + 6, p + 6 + ct.len())[i] == ct[i] by {
            assert(s[p + 6 + i] == ct[i]);
        }
    }
    assert(s[e + 0] == " DO\n"@[0]);
    assert(s[e + 1] == " DO\n"@[1]);
    assert(s[e + 2] == " DO\n"@[2]);
    assert(s[e + 3] == " DO\n"@[3]);
    assert(s.subrange(e + 1, e + 3) =~= "DO"@);
    assert(s.subrange(e + 4, e + 4 + bt.len()) =~= bt) by {
        assert forall|i: int| 0 <= i < bt.len() implies s.subrange(e + 4, e + 4 + bt.len())[i] == bt[i] by {
            assert(s[e + 4 + i] == bt[i]);
        }
    }
    assert(s[q + 0] == "END"@[0]);
    assert(s[q + 1] == "END"@[1]);
    assert(s[q + 2] == "END"@[2]);
    assert(s.subrange(q, q + 3) =~= "END"@);
    assert(program_ok(body));
}

/// What an IF at `p` looks like: `IF`, the condition between blanks, `THEN`, a line
/// break, the statements, `ELSE` on a line of its own and statements where there are any,
/// and `END` at the end of the line.
proof fn lemma_if_head(s: Seq<char>, p: int, st: Stmt)
    requires
        stmt_line_at(s, p, st),
        st is If,
    ensures
        ({
            let cd = st->If_cond;
            let then = st->If_then;
            let els = st->If_els;
            let e = p + 3 + cond_text(cd).len();
            let q1 = e + 6 + body_text(then).len();
            let q2 = if els.len() == 0 { q1 } else { q1 + 5 + body_text(els).len() };
            &&& 0 <= p && q2 + 3 == p + stmt_text(st).len()
            &&& q2 + 3 <= s.len()
            &&& (q2 + 3 == s.len() || s[q2 + 3] == '\n')
            &&& keyword_at(s, p, "IF"@)
            &&& s[p] == 'I'
            &&& cond_after(s, p + 2, cd)
            &&& blanks(s, e, e + 1) && blank_stop(s, e + 1)
            &&& keyword_at(s, e + 1, "THEN"@)
            &&& s[e + 5] == '\n'
            &&& body_at(s, e + 6, then)
            &&& s[q1] == 'E' && blank_stop(s, q1)
            &&& (els.len() > 0 ==> keyword_at(s, q1, "ELSE"@) && s[q1 + 4] == '\n' && body_at(s, q1 + 5, els))
            &&& (els.len() == 0 ==> !keyword_at(s, q1, "ELSE"@))
            &&& keyword_at(s, q2, "END"@)
            &&& s[q2] == 'E' && blank_stop(s, q2)
        }),
{
    reveal_strlit("IF ");
    reveal_strlit("IF");
    reveal_strlit(" THEN\n");
    reveal_strlit("THEN");
    reveal_strlit("ELSE\n");
    reveal_strlit("ELSE");
    reveal_strlit("END");
    let cd = st->If_cond;
    let ct = cond_text(cd);
    let then = st->If_then;
    let els = st->If_els;
    let tb = body_text(then);
    let eb = body_text(els);
    let mid = if els.len() == 0 { Seq::<char>::empty() } else { "ELSE\n"@ + eb };
    let t = stmt_text(st);
    let e = p + 3 + ct.len();
    let q1 = e + 6 + tb.len();
    let q2 = q1 + mid.len();
    assert(t =~= "IF "@ + ct + " THEN\n"@ + tb + mid + "END"@);
    assert(t.len() == 3 + ct.len() + 6 + tb.len() + mid.len() + 3);
    lemma_chars(s, p, t);
    assert forall|i: int| 0 <= i < 3 implies s[p + i] == #[trigger] "IF "@[i] by {
        assert(t[i] == "IF "@[i]);
    }
    assert forall|i: int| 0 <= i < ct.len() implies s[p + 3 + i] == #[trigger] ct[i] by {
        assert(s[p + (3 + i)] == t[3 + i]);
        assert(t[3 + i] == ct[i]);
    }
    assert forall|i: int| 0 <= i < 6 implies s[e + i] == #[trigger] " THEN\n"@[i] by {
        assert(s[p + (3 + ct.len() + i)] == t[3 + ct.len() + i]);
        assert(t[3 + ct.len() + i] == " THEN\n"@[i]);
    }
    assert forall|i: int| 0 <= i < tb.len() implies s[e + 6 + i] == #[trigger] tb[i] by {
        assert(s[p + (3 + ct.len() + 6 + i)] == t[3 + ct.len() + 6 + i]);
        assert(t[3 + ct.len() + 6 + i] == tb[i]);
    }
    assert forall|i: int| 0 <= i < mid.len() implies s[q1 + i] == #[trigger] mid[i] by {
        assert(s[p + (3 + ct.len() + 6 + tb.len() + i)] == t[3 + ct.len() + 6 + tb.len() + i]);
        assert(t[3 + ct.len() + 6 + tb.len() + i] == mid[i]);
    }
    assert forall|i: int| 0 <= i < 3 implies s[q2 + i] == #[trigger] "END"@[i] by {
        assert(s[p + (3 + ct.len() + 6 + tb.len() + mid.len() + i)] == t[3 + ct.len() + 6 + tb.len() + mid.len() + i]);
        assert(t[3 + ct.len() + 6 + tb.len() + mid.len() + i] == "END"@[i]);
    }
    assert(s[p + 0] == "IF "@[0]);
    assert(s[p + 1] == "IF "@[1]);
    assert(s[p + 2] == "IF "@[2]);
    assert(s.subrange(p, p + 2) =~= "IF"@);
    assert(s.subrange(p + 3, p + 3 + ct.len()) =~= ct) by {
        assert forall|i: int| 0 <= i < ct.len() implies s.subrange(p + 3, p + 3 + ct.len())[i] == ct[i] by {
            assert(s[p + 3 + i] == ct[i]);
        }
    }
    assert(s[e + 0] == " THEN\n"@[0]);
    assert(s[e + 1] == " THEN\n"@[1]);
    assert(s[e + 2] == " THEN\n"@[2]);
    assert(s[e + 3] == " THEN\n"@[3]);
    assert(s[e + 4] == " THEN\n"@[4]);
    assert(s[e + 5] == " THEN\n"@[5]);
    assert(s.subrange(e + 1, e + 5) =~= "THEN"@);
    assert(s.subrange(e + 6, e + 6 + tb.len()) =~= tb) by {
        assert forall|i: int| 0 <= i < tb.len() implies s.subrange(e + 6, e + 6 + tb.len())[i] == tb[i] by {
            assert(s[e + 6 + i] == tb[i]);
        }
    }
    assert(s[q2 + 0] == "END"@[0]);
    assert(s[q2 + 1] == "END"@[1]);
    assert(s[q2 + 2] == "END"@[2]);
    assert(s.subrange(q2, q2 + 3) =~= "END"@);
    if els.len() > 0 {
        assert(mid =~= "ELSE\n"@ + eb);
        assert(s[q1 + 0] == mid[0]);
        assert(s[q1 + 1] == mid[1]);
        assert(s[q1 + 2] == mid[2]);
        assert(s[q1 + 3] == mid[3]);
        assert(s[q1 + 4] == mid[4]);
        assert(s.subrange(q1, q1 + 4) =~= "ELSE"@);
        assert(s.subrange(q1 + 5, q1 + 5 + eb.len()) =~= eb) by {
            assert forall|i: int| 0 <= i < eb.len() implies s.subrange(q1 + 5, q1 + 5 + eb.len())[i] == eb[i] by {
                assert(s[q1 + (5 + i)] == mid[5 + i]);
            }
        }
        assert(program_ok(els));
    } else {
        if keyword_at(s, q1, "ELSE"@) {
            assert(s.subrange(q1, q1 + 4)[1] == s[q1 + 1]);
        }
    }
    assert(program_ok(then));
}

/// The arguments of a call, separated by a comma and a blank.
pub open spec fn args_text(args: Seq<Side>) -> Seq<char>
    decreases args.len(),
{
    if args.len() == 0 {
        Seq::empty()
    } else if args.len() == 1 {
        side_text(args[0])
    } else {
        args_text(args.drop_last()) + ", "@ + side_text(args.last())
    }
}

/// The arguments of a call in brackets.
pub open spec fn paren_text(args: Seq<Side>) -> Seq<char> {
    "("@ + args_text(args) + ")"@
}

/// The bracketed arguments `args` stand at `p`.
pub open spec fn args_at(s: Seq<char>, p: int, args: Seq<Side>) -> bool {
    &&& forall|i: int| 0 <= i < args.len() ==> side_ok(#[trigger] args[i])
    &&& 0 <= p
    &&& p + paren_text(args).len() <= s.len()
    &&& s.subrange(p, p + paren_text(args).len()) == paren_text(args)
}

/// Where the text of the first `k` arguments ends, inside the brackets at `p`.
pub open spec fn args_end(p: int, args: Seq<Side>, k: int) -> int {
    p + 1 + args_text(args.take(k)).len()
}

/// One more argument adds a comma, a blank (after the first) and its text.
proof fn lemma_args_step(args: Seq<Side>, k: int)
    requires
        0 <= k < args.len(),
    ensures
        args_text(args.take(k + 1)) == args_text(args.take(k)) + (if k == 0 { Seq::<char>::empty() } else { ", "@ })
            + side_text(args[k]),
{
    assert(args.take(k + 1).drop_last() =~= args.take(k));
    assert(args.take(k + 1).last() == args[k]);
    if k == 0 {
        assert(args.take(1)[0] == args[0]);
        assert(args.take(0) =~= Seq::<Side>::empty());
    }
}

/// The text of the first arguments is a prefix of the text of all.
proof fn lemma_args_prefix(args: Seq<Side>, j: int)
    requires
        0 <= j <= args.len(),
    ensures
        args_text(args.take(j)).len() <= args_text(args).len(),
        args_text(args).subrange(0, args_text(args.take(j)).len() as int) == args_text(args.take(j)),
    decreases args.len(),
{
    if j == args.len() {
        assert(args.take(j) =~= args);
    } else {
        let d = args.drop_last();
        lemma_args_prefix(d, j);
        assert(d.take(j) =~= args.take(j));
        let pt = args_text(args);
        let pd = args_text(d);
        if args.len() == 1 {
            assert(args.take(0) =~= Seq::<Side>::empty());
        } else {
            assert(pt.subrange(0, pd.len() as int) =~= pd);
            let m = args_text(args.take(j)).len() as int;
            assert(pt.subrange(0, m) =~= pd.subrange(0, m));
        }
    }
}

/// Around argument `k` of the bracketed arguments at `p`: what comes before it (`(`, or a
/// comma and a blank), its text, and what comes after it (a comma, or `)`).
proof fn lemma_args_parts(s: Seq<char>, p: int, args: Seq<Side>, k: int)
    requires
        args_at(s, p, args),
        0 <= k < args.len(),
    ensures
        ({
            let b = args_end(p, args, k);
            let f = if k == 0 { b } else { b + 2 };
            let a = args_end(p, args, k + 1);
            &&& 0 <= p < s.len() && s[p] == '('
            &&& (k == 0 ==> b == p + 1)
            &&& (k > 0 ==> s[b] == ',' && s[b + 1] == ' ')
            &&& a == f + side_text(args[k]).len()
            &&& blanks(s, if k == 0 { b } else { b + 1 }, f)
            &&& side_ready(s, f, args[k])
            &&& a < s.len()
            &&& (k + 1 < args.len() ==> s[a] == ',')
            &&& (k + 1 == args.len() ==> s[a] == ')')
            &&& blanks(s, a, a) && blank_stop(s, a)
        }),
{
    reveal_strlit("(");
    reveal_strlit(")");
    reveal_strlit(", ");
    let at = args_text(args);
    let pt = paren_text(args);
    let b = args_end(p, args, k);
    let a = args_end(p, args, k + 1);
    let f = if k == 0 { b } else { b + 2 };
    let w = side_text(args[k]);
    lemma_args_step(args, k);
    lemma_args_prefix(args, k + 1);
    assert(pt =~= "("@ + at + ")"@);
    lemma_chars(s, p, pt);
    assert(s[p + 0] == pt[0]);
    let ak = args_text(args.take(k));
    let ak1 = args_text(args.take(k + 1));
    assert forall|i: int| 0 <= i < ak1.len() implies s[p + 1 + i] == #[trigger] ak1[i] by {
        assert(s[p + (1 + i)] == pt[1 + i]);
        assert(pt[1 + i] == at[i]);
        assert(at.subrange(0, ak1.len() as int)[i] == at[i]);
    }
    if k > 0 {
        assert(s[p + 1 + ak.len()] == ak1[ak.len() as int]);
        assert(s[p + 1 + (ak.len() + 1)] == ak1[(ak.len() + 1) as int]);
    }
    assert forall|i: int| 0 <= i < w.len() implies s[f + i] == #[trigger] w[i] by {
        assert(s[p + 1 + (f - p - 1 + i)] == ak1[f - p - 1 + i]);
    }
    assert(s.subrange(f, f + w.len()) =~= w);
    if k + 1 < args.len() {
        lemma_args_step(args, k + 1);
        lemma_args_prefix(args, k + 2);
        let ak2 = args_text(args.take(k + 2));
        assert(s[p + 1 + ak1.len()] == ak2[ak1.len() as int]) by {
            assert(s[p + (1 + ak1.len())] == pt[(1 + ak1.len()) as int]);
            assert(pt[(1 + ak1.len()) as int] == at[ak1.len() as int]);
            assert(at.subrange(0, ak2.len() as int)[ak1.len() as int] == at[ak1.len() as int]);
        }
    } else {
        assert(args.take(k + 1) =~= args);
        assert(s[p + (1 + at.len())] == pt[(1 + at.len()) as int]);
    }
    lemma_side(s, f, args[k]);
}

/// What a call at `p` looks like: the target, ` := `, the function's name, and the
/// bracketed arguments to the end of the line.
proof fn lemma_call_head(s: Seq<char>, p: int, st: Stmt)
    requires
        stmt_line_at(s, p, st),
        st is Call,
    ensures
        ({
            let x = st->Call_x;
            let f = st->Call_f;
            let e = p + x.len();
            let g = e + 4 + f.len();
            &&& is_name(x) && is_name(f)
            &&& 0 <= p < s.len()
            &&& (spec_is_letter(s[p]) || s[p] == '_')
            &&& blanks(s, p, p) && blank_stop(s, p)
            &&& ident_end(s, p) == e
            &&& s.subrange(p, e) == x
            &&& e < s.len() && s[e] == ' '
            &&& blanks(s, e, e + 1) && blank_stop(s, e + 1)
            &&& e + 3 <= s.len() && s.subrange(e + 1, e + 3) == ":="@
            &&& blanks(s, e + 3, e + 4)
            &&& e + 4 < s.len()
            &&& (spec_is_letter(s[e + 4]) || s[e + 4] == '_')
            &&& !('0' <= s[e + 4] <= '9')
            &&& blank_stop(s, e + 4)
            &&& ident_end(s, e + 4) == g
            &&& s.subrange(e + 4, g) == f
            &&& g < s.len() && s[g] == '('
            &&& blanks(s, g, g) && blank_stop(s, g)
            &&& args_at(s, g, st->Call_args)
            &&& g + paren_text(st->Call_args).len() == p + stmt_text(st).len()
        }),
{
    reveal_strlit(" := ");
    reveal_strlit(":=");
    reveal_strlit("(");
    let x = st->Call_x;
    let f = st->Call_f;
    let args = st->Call_args;
    let pt = paren_text(args);
    let t = stmt_text(st);
    let e = p + x.len();
    let g = e + 4 + f.len();
    assert(t =~= x + " := "@ + f + pt);
    assert(t.len() == x.len() + 4 + f.len() + pt.len());
    assert(pt =~= "("@ + args_text(args) + ")"@);
    lemma_chars(s, p, t);
    assert forall|i: int| 0 <= i < x.len() implies s[p + i] == #[trigger] x[i] by {
        assert(t[i] == x[i]);
    }
    assert forall|i: int| 0 <= i < 4 implies s[e + i] == #[trigger] " := "@[i] by {
        assert(s[p + (x.len() + i)] == t[x.len() + i]);
        assert(t[x.len() + i] == " := "@[i]);
    }
    assert forall|i: int| 0 <= i < f.len() implies s[e + 4 + i] == #[trigger] f[i] by {
        assert(s[p + (x.len() + 4 + i)] == t[x.len() + 4 + i]);
        assert(t[x.len() + 4 + i] == f[i]);
    }
    assert forall|i: int| 0 <= i < pt.len() implies s[g + i] == #[trigger] pt[i] by {
        assert(s[p + (x.len() + 4 + f.len() + i)] == t[x.len() + 4 + f.len() + i]);
        assert(t[x.len() + 4 + f.len() + i] == pt[i]);
    }
    assert(s[p + 0] == x[0]);
    assert forall|i: int| p <= i < e implies spec_is_ident_char(#[trigger] s[i]) by {
        assert(s[p + (i - p)] == x[i - p]);
    }
    assert(s[e + 0] == " := "@[0]);
    assert(s[e + 1] == " := "@[1]);
    assert(s[e + 2] == " := "@[2]);
    assert(s[e + 3] == " := "@[3]);
    lemma_ident_run(s, p, x.len() as int);
    assert(s.subrange(p, e) =~= x);
    assert(s.subrange(e + 1, e + 3) =~= ":="@);
    assert(s[e + 4 + 0] == f[0]);
    assert forall|i: int| e + 4 <= i < g implies spec_is_ident_char(#[trigger] s[i]) by {
        assert(s[e + 4 + (i - e - 4)] == f[i - e - 4]);
    }
    assert(s[g + 0] == pt[0]);
    lemma_ident_run(s, e + 4, f.len() as int);
    assert(s.subrange(e + 4, g) =~= f);
    assert(s.subrange(g, g + pt.len()) =~= pt);
}

/// A function declaration: `FN name(params) -> ret DECL`, the body, and `END`.
pub struct Decl {
    pub name: Seq<char>,
    pub params: Seq<Seq<char>>,
    pub ret: Seq<char>,
    pub body: Seq<Stmt>,
}

/// Parameters written as the arguments of a call.
pub open spec fn names_as_sides(ps: Seq<Seq<char>>) -> Seq<Side> {
    Seq::new(ps.len(), |i: int| Side::Name(ps[i]))
}

/// The text of a function declaration, its body on lines of their own.
pub open spec fn decl_text(d: Decl) -> Seq<char> {
    "FN "@ + d.name + paren_text(names_as_sides(d.params)) + " -> "@ + d.ret + " DECL\n"@ + body_text(d.body) + "END"@
}

/// A declaration whose names are variable names and whose body is a program.
pub open spec fn decl_ok(d: Decl) -> bool {
    &&& is_name(d.name)
    &&& forall|i: int| 0 <= i < d.params.len() ==> is_name(#[trigger] d.params[i])
    &&& is_name(d.ret)
    &&& program_ok(d.body)
}

/// The declaration `d` stands at `p`, on lines of its own from there on.
pub open spec fn decl_line_at(s: Seq<char>, p: int, d: Decl) -> bool {
    decl_ok(d) && line_at(s, p, decl_text(d))
}

/// `fd` is what the parser makes of the declaration `d`.
pub open spec fn decl_parsed(fd: FuncDecl, d: Decl) -> bool {
    &&& (*fd.ident)@ == SExpr::Ident(d.name)
    &&& fd.params@.len() == d.params.len()
    &&& (forall|i: int| 0 <= i < d.params.len() ==> (#[trigger] fd.params@[i])@ == SExpr::Ident(d.params[i]))
    &&& (*fd.ret)@ == SExpr::Ident(d.ret)
    &&& match *fd.terms {
        Hir::Control(Control::Terms(v)) => v@.len() == d.body.len()
            && forall|i: int| 0 <= i < d.body.len() ==> parsed_as(#[trigger] v@[i], d.body[i]),
        _ => false,
    }
}

/// What a declaration at `p` looks like, piece by piece.
proof fn lemma_decl_head(s: Seq<char>, p: int, d: Decl)
    requires
        decl_line_at(s, p, d),
    ensures
        ({
            let g = p + 3 + d.name.len();
            let h = g + paren_text(names_as_sides(d.params)).len();
            let re = h + 4 + d.ret.len();
            let q = re + 6 + body_text(d.body).len();
            &&& 0 <= p < s.len()
            &&& keyword_at(s, p, "FN"@)
            &&& s[p] == 'F' && s[p + 1] == 'N'
            &&& blanks(s, p, p) && blank_stop(s, p)
            &&& blanks(s, p + 2, p + 3)
            &&& (spec_is_letter(s[p + 3]) || s[p + 3] == '_')
            &&& ident_end(s, p + 3) == g
            &&& s.subrange(p + 3, g) == d.name
            &&& g < s.len() && s[g] == '('
            &&& blanks(s, g, g) && blank_stop(s, g)
            &&& args_at(s, g, names_as_sides(d.params))
            &&& h < s.len() && s[h] == ' '
            &&& blanks(s, h, h + 1) && blank_stop(s, h + 1)
            &&& h + 3 <= s.len() && s.subrange(h + 1, h + 3) == "->"@
            &&& blanks(s, h + 3, h + 4)
            &&& (spec_is_letter(s[h + 4]) || s[h + 4] == '_')
            &&& ident_end(s, h + 4) == re
            &&& s.subrange(h + 4, re) == d.ret
            &&& blanks(s, re, re + 1) && blank_stop(s, re + 1)
            &&& keyword_at(s, re + 1, "DECL"@)
            &&& s[re + 5] == '\n'
            &&& block_at(s, re + 5, d.body, false)
            &&& blank_stop(s, q) && s[q] == 'E'
            &&& keyword_at(s, q, "END"@)
            &&& q + 3 == p + decl_text(d).len()
            &&& q + 3 <= s.len()
            &&& (q + 3 == s.len() || s[q + 3] == '\n')
        }),
{
    reveal_strlit("FN ");
    reveal_strlit("FN");
    reveal_strlit(" -> ");
    reveal_strlit("->");
    reveal_strlit(" DECL\n");
    reveal_strlit("DECL");
    reveal_strlit("END");
    reveal_strlit("(");
    reveal_strlit(")");
    let ps = names_as_sides(d.params);
    let pt = paren_text(ps);
    let bt = body_text(d.body);
    let t = decl_text(d);
    let g = p + 3 + d.name.len();
    let h = g + pt.len();
    let re = h + 4 + d.ret.len();
    let q = re + 6 + bt.len();
    assert(t =~= "FN "@ + d.name + pt + " -> "@ + d.ret + " DECL\n"@ + bt + "END"@);
    assert(t.len() == 3 + d.name.len() + pt.len() + 4 + d.ret.len() + 6 + bt.len() + 3);
    assert(pt =~= "("@ + args_text(ps) + ")"@);
    lemma_chars(s, p, t);
    assert forall|i: int| 0 <= i < 3 implies s[p + i] == #[trigger] "FN "@[i] by {
        assert(t[i] == "FN "@[i]);
    }
    assert forall|i: int| 0 <= i < d.name.len() implies s[p + 3 + i] == #[trigger] d.name[i] by {
        assert(s[p + (3 + i)] == t[3 + i]);
        assert(t[3 + i] == d.name[i]);
    }
    assert forall|i: int| 0 <= i < pt.len() implies s[g + i] == #[trigger] pt[i] by {
        assert(s[p + (3 + d.name.len() + i)] == t[3 + d.name.len() + i]);
        assert(t[3 + d.name.len() + i] == pt[i]);
    }
    assert forall|i: int| 0 <= i < 4 implies s[h + i] == #[trigger] " -> "@[i] by {
        assert(s[p + (3 + d.name.len() + pt.len() + i)] == t[3 + d.name.len() + pt.len() + i]);
        assert(t[3 + d.name.len() + pt.len() + i] == " -> "@[i]);
    }
    assert forall|i: int| 0 <= i < d.ret.len() implies s[h + 4 + i] == #[trigger] d.ret[i] by {
        assert(s[p + (3 + d.name.len() + pt.len() + 4 + i)] == t[3 + d.name.len() + pt.len() + 4 + i]);
        assert(t[3 + d.name.len() + pt.len() + 4 + i] == d.ret[i]);
    }
    assert forall|i: int| 0 <= i < 6 implies s[re + i] == #[trigger] " DECL\n"@[i] by {
        assert(s[p + (3 + d.name.len() + pt.len() + 4 + d.ret.len() + i)] == t[3 + d.name.len() + pt.len() + 4 + d.ret.len() + i]);
        assert(t[3 + d.name.len() + pt.len() + 4 + d.ret.len() + i] == " DECL\n"@[i]);
    }
    assert forall|i: int| 0 <= i < bt.len() implies s[re + 6 + i] == #[trigger] bt[i] by {
        assert(s[p + (3 + d.name.len() + pt.len() + 4 + d.ret.len() + 6 + i)]
            == t[3 + d.name.len() + pt.len() + 4 + d.ret.len() + 6 + i]);
        assert(t[3 + d.name.len() + pt.len() + 4 + d.ret.len() + 6 + i] == bt[i]);
    }
    assert forall|i: int| 0 <= i < 3 implies s[q + i] == #[trigger] "END"@[i] by {
        assert(s[p + (3 + d.name.len() + pt.len() + 4 + d.ret.len() + 6 + bt.len() + i)]
            == t[3 + d.name.len() + pt.len() + 4 + d.ret.len() + 6 + bt.len() + i]);
        assert(t[3 + d.name.len() + pt.len() + 4 + d.ret.len() + 6 + bt.len() + i] == "END"@[i]);
    }
    assert(s[p + 0] == "FN "@[0]);
    assert(s[p + 1] == "FN "@[1]);
    assert(s[p + 2] == "FN "@[2]);
    assert(s.subrange(p, p + 2) =~= "FN"@);
    assert(s[p + 3 + 0] == d.name[0]);
    assert forall|i: int| p + 3 <= i < g implies spec_is_ident_char(#[trigger] s[i]) by {
        assert(s[p + 3 + (i - p - 3)] == d.name[i - p - 3]);
    }
    assert(s[g + 0] == pt[0]);
    lemma_ident_run(s, p + 3, d.name.len() as int);
    assert(s.subrange(p + 3, g) =~= d.name);
    assert(s.subrange(g, g + pt.len()) =~= pt);
    assert(forall|i: int| 0 <= i < ps.len() ==> side_ok(#[trigger] ps[i]));
    assert(s[h + 0] == " -> "@[0]);
    assert(s[h + 1] == " -> "@[1]);
    assert(s[h + 2] == " -> "@[2]);
    assert(s[h + 3] == " -> "@[3]);
    assert(s.subrange(h + 1, h + 3) =~= "->"@);
    assert(s[h + 4 + 0] == d.ret[0]);
    assert forall|i: int| h + 4 <= i < re implies spec_is_ident_char(#[trigger] s[i]) by {
        assert(s[h + 4 + (i - h - 4)] == d.ret[i - h - 4]);
    }
    assert(s[re + 0] == " DECL\n"@[0]);
    assert(s[re + 1] == " DECL\n"@[1]);
    assert(s[re + 2] == " DECL\n"@[2]);
    assert(s[re + 3] == " DECL\n"@[3]);
    assert(s[re + 4] == " DECL\n"@[4]);
    assert(s[re + 5] == " DECL\n"@[5]);
    lemma_ident_run(s, h + 4, d.ret.len() as int);
    assert(s.subrange(h + 4, re) =~= d.ret);
    assert(s.subrange(re + 1, re + 5) =~= "DECL"@);
    assert(s.subrange(re + 6, re + 6 + bt.len()) =~= bt) by {
        assert forall|i: int| 0 <= i < bt.len() implies s.subrange(re + 6, re + 6 + bt.len())[i] == bt[i] by {
            assert(s[re + 6 + i] == bt[i]);
        }
    }
    assert(s[q + 0] == "END"@[0]);
    assert(s[q + 1] == "END"@[1]);
    assert(s[q + 2] == "END"@[2]);
    assert(s.subrange(q, q + 3) =~= "END"@);
}

/// The text of function declarations, each on lines of its own, each ended by a line
/// break.
pub open spec fn decls_text(ds: Seq<Decl>) -> Seq<char>
    decreases ds.len(),
{
    if ds.len() == 0 {
        Seq::empty()
    } else {
        decls_text(ds.drop_last()) + decl_text(ds.last()) + "\n"@
    }
}

/// The text of a module of function declarations and statements.
pub open spec fn module_text(ds: Seq<Decl>, sts: Seq<Stmt>) -> Seq<char> {
    decls_text(ds) + body_text(sts)
}

/// Declarations and statements (possibly none) the parser can read back.
pub open spec fn module_ok(ds: Seq<Decl>, sts: Seq<Stmt>) -> bool {
    &&& forall|i: int| 0 <= i < ds.len() ==> decl_ok(#[trigger] ds[i])
    &&& (sts.len() == 0 || program_ok(sts))
}

/// The module text of `ds` and `sts` stands from `p` to the end of `s`.
pub open spec fn module_at(s: Seq<char>, p: int, ds: Seq<Decl>, sts: Seq<Stmt>) -> bool {
    &&& module_ok(ds, sts)
    &&& 0 <= p
    &&& p + module_text(ds, sts).len() == s.len()
    &&& s.subrange(p, s.len() as int) == module_text(ds, sts)
}

/// What the parser makes of the statements `sts` of a module: nothing to do when there
/// are none, else the list of what it makes of each.
pub open spec fn code_parsed(h: Hir, sts: Seq<Stmt>) -> bool {
    if sts.len() == 0 {
        h == Hir::NoOp
    } else {
        h matches Hir::Control(Control::Terms(v)) && v@.len() == sts.len()
            && forall|i: int| 0 <= i < sts.len() ==> parsed_as(#[trigger] v@[i], sts[i])
    }
}

/// `m` is what the parser makes of the declarations `ds` and the statements `sts`, with
/// no imports.
pub open spec fn module_parsed(m: Module, ds: Seq<Decl>, sts: Seq<Stmt>) -> bool {
    &&& m.imp@.len() == 0
    &&& m.decl@.len() == ds.len()
    &&& forall|i: int| 0 <= i < ds.len() ==> decl_parsed(#[trigger] m.decl@[i], ds[i])
    &&& code_parsed(m.code, sts)
}

/// Where the declaration `j` of the module at `p` starts.
pub open spec fn decl_start(p: int, ds: Seq<Decl>, j: int) -> int {
    p + decls_text(ds.take(j)).len()
}

/// The text of the first declarations is a prefix of the text of all.
proof fn lemma_decls_prefix(ds: Seq<Decl>, j: int)
    requires
        0 <= j <= ds.len(),
    ensures
        decls_text(ds.take(j)).len() <= decls_text(ds).len(),
        decls_text(ds).subrange(0, decls_text(ds.take(j)).len() as int) == decls_text(ds.take(j)),
    decreases ds.len(),
{
    if j == ds.len() {
        assert(ds.take(j) =~= ds);
    } else {
        let d = ds.drop_last();
        lemma_decls_prefix(d, j);
        assert(d.take(j) =~= ds.take(j));
        let pt = decls_text(ds);
        let pd = decls_text(d);
        assert(pt.subrange(0, pd.len() as int) =~= pd);
        let m = decls_text(ds.take(j)).len() as int;
        assert(pt.subrange(0, m) =~= pd.subrange(0, m));
    }
}

/// Where a module item starts: no blank, no `FROM`, and a plain character or the end.
pub open spec fn item_start(s: Seq<char>, q: int) -> bool {
    &&& 0 <= q <= s.len()
    &&& blanks(s, q, q)
    &&& blank_stop(s, q)
    &&& !keyword_at(s, q, "FROM"@)
    &&& (q < s.len() ==> plain_char(s[q]) && s[q] != '\n')
}

/// The pieces of a module text: each declaration on its lines, then the statements.
proof fn lemma_module_parts(s: Seq<char>, p: int, ds: Seq<Decl>, sts: Seq<Stmt>, j: int)
    requires
        module_at(s, p, ds, sts),
        0 <= j <= ds.len(),
    ensures
        decl_start(p, ds, 0) == p,
        decl_start(p, ds, ds.len() as int) == p + decls_text(ds).len(),
        item_start(s, decl_start(p, ds, j)),
        j < ds.len() ==> decl_line_at(s, decl_start(p, ds, j), ds[j])
            && s[decl_start(p, ds, j) + decl_text(ds[j]).len()] == '\n'
            && decl_start(p, ds, j + 1) == decl_start(p, ds, j) + decl_text(ds[j]).len() + 1,
        j == ds.len() && sts.len() > 0 ==> program_at(s, p + decls_text(ds).len(), sts),
        j == ds.len() && sts.len() == 0 ==> decl_start(p, ds, j) == s.len(),
{
    reveal_strlit("\n");
    reveal_strlit("FROM");
    let dt = decls_text(ds);
    let mt = module_text(ds, sts);
    let bt = body_text(sts);
    assert(ds.take(0) =~= Seq::<Decl>::empty());
    assert(ds.take(ds.len() as int) =~= ds);
    assert forall|i: int| 0 <= i < mt.len() implies s[p + i] == #[trigger] mt[i] by {
        assert(s.subrange(p, s.len() as int)[i] == s[p + i]);
    }
    let q = decl_start(p, ds, j);
    if j < ds.len() {
        let a = decls_text(ds.take(j));
        let t = decl_text(ds[j]);
        assert(ds.take(j + 1).drop_last() =~= ds.take(j));
        assert(ds.take(j + 1).last() == ds[j]);
        let b = decls_text(ds.take(j + 1));
        assert(b == a + t + "\n"@);
        lemma_decls_prefix(ds, j + 1);
        assert forall|i: int| 0 <= i < b.len() implies s[p + i] == #[trigger] b[i] by {
            assert(s[p + i] == mt[i]);
            assert(mt[i] == dt[i]);
            assert(dt.subrange(0, b.len() as int)[i] == dt[i]);
        }
        assert(s.subrange(q, q + t.len()) =~= t) by {
            assert forall|i: int| 0 <= i < t.len() implies s.subrange(q, q + t.len())[i] == t[i] by {
                assert(s[p + (a.len() + i)] == b[a.len() + i]);
            }
        }
        assert(s[p + (a.len() + t.len())] == b[(a.len() + t.len()) as int]);
        assert(decl_ok(ds[j]));
        lemma_decl_head(s, q, ds[j]);
        if keyword_at(s, q, "FROM"@) {
            assert(s.subrange(q, q + 4)[1] == s[q + 1]);
        }
    } else {
        let pd = p + dt.len();
        if sts.len() > 0 {
            assert(s.subrange(pd, pd + bt.len()) =~= bt) by {
                assert forall|i: int| 0 <= i < bt.len() implies s.subrange(pd, pd + bt.len())[i] == bt[i] by {
                    assert(s[p + (dt.len() + i)] == mt[dt.len() + i]);
                }
            }
            lemma_body_line(s, pd, sts, 0);
            lemma_stmt_start(s, pd, sts[0]);
        } else {
            assert(bt.len() == 0);
        }
    }
}

/// Texts joined by a separator.
pub open spec fn joined(ts: Seq<Seq<char>>, sep: Seq<char>) -> Seq<char>
    decreases ts.len(),
{
    if ts.len() == 0 {
        Seq::empty()
    } else if ts.len() == 1 {
        ts[0]
    } else {
        joined(ts.drop_last(), sep) + sep + ts.last()
    }
}

/// Where the first `k` joined texts end, when the joined texts stand at `p`.
pub open spec fn joined_end(p: int, ts: Seq<Seq<char>>, sep: Seq<char>, k: int) -> int {
    p + joined(ts.take(k), sep).len()
}

/// One more text adds the separator (after the first) and the text.
proof fn lemma_joined_step(ts: Seq<Seq<char>>, sep: Seq<char>, k: int)
    requires
        0 <= k < ts.len(),
    ensures
        joined(ts.take(k + 1), sep) == joined(ts.take(k), sep) + (if k == 0 { Seq::<char>::empty() } else { sep }) + ts[k],
{
    assert(ts.take(k + 1).drop_last() =~= ts.take(k));
    assert(ts.take(k + 1).last() == ts[k]);
    if k == 0 {
        assert(ts.take(1)[0] == ts[0]);
        assert(ts.take(0) =~= Seq::<Seq<char>>::empty());
    }
}

/// The first texts joined are a prefix of all of them joined.
proof fn lemma_joined_prefix(ts: Seq<Seq<char>>, sep: Seq<char>, j: int)
    requires
        0 <= j <= ts.len(),
    ensures
        joined(ts.take(j), sep).len() <= joined(ts, sep).len(),
        joined(ts, sep).subrange(0, joined(ts.take(j), sep).len() as int) == joined(ts.take(j), sep),
    decreases ts.len(),
{
    if j == ts.len() {
        assert(ts.take(j) =~= ts);
    } else {
        let d = ts.drop_last();
        lemma_joined_prefix(d, sep, j);
        assert(d.take(j) =~= ts.take(j));
        let pt = joined(ts, sep);
        let pd = joined(d, sep);
        if ts.len() == 1 {
            assert(ts.take(0) =~= Seq::<Seq<char>>::empty());
        } else {
            assert(pt.subrange(0, pd.len() as int) =~= pd);
            let m = joined(ts.take(j), sep).len() as int;
            assert(pt.subrange(0, m) =~= pd.subrange(0, m));
        }
    }
}

/// Around text `k` of joined texts at `p`: the separator before it (after the first),
/// the text, and what follows it (the separator, or the end of the joined texts).
proof fn lemma_joined_parts(s: Seq<char>, p: int, ts: Seq<Seq<char>>, sep: Seq<char>, k: int)
    requires
        0 <= p,
        p + joined(ts, sep).len() <= s.len(),
        s.subrange(p, p + joined(ts, sep).len()) == joined(ts, sep),
        0 <= k < ts.len(),
    ensures
        ({
            let b = joined_end(p, ts, sep, k);
            let f = if k == 0 { b } else { b + sep.len() };
            let a = joined_end(p, ts, sep, k + 1);
            &&& k == 0 ==> b == p
            &&& k > 0 ==> s.subrange(b, b + sep.len()) == sep
            &&& a == f + ts[k].len()
            &&& s.subrange(f, a) == ts[k]
            &&& a <= p + joined(ts, sep).len()
            &&& k + 1 < ts.len() ==> a + sep.len() <= s.len() && s.subrange(a, a + sep.len()) == sep
            &&& k + 1 == ts.len() ==> a == p + joined(ts, sep).len()
        }),
{
    let jt = joined(ts, sep);
    let b = joined_end(p, ts, sep, k);
    let a = joined_end(p, ts, sep, k + 1);
    let f = if k == 0 { b } else { b + sep.len() };
    lemma_joined_step(ts, sep, k);
    lemma_joined_prefix(ts, sep, k + 1);
    assert(ts.take(0) =~= Seq::<Seq<char>>::empty());
    let ak = joined(ts.take(k), sep);
    let ak1 = joined(ts.take(k + 1), sep);
    assert forall|i: int| 0 <= i < ak1.len() implies s[p + i] == #[trigger] ak1[i] by {
        assert(s.subrange(p, p + jt.len())[i] == s[p + i]);
        assert(jt.subrange(0, ak1.len() as int)[i] == jt[i]);
    }
    if k > 0 {
        assert(s.subrange(b, b + sep.len()) =~= sep) by {
            assert forall|i: int| 0 <= i < sep.len() implies s.subrange(b, b + sep.len())[i] == sep[i] by {
                assert(s[p + (ak.len() + i)] == ak1[ak.len() + i]);
            }
        }
    }
    assert(s.subrange(f, a) =~= ts[k]) by {
        assert forall|i: int| 0 <= i < ts[k].len() implies s.subrange(f, a)[i] == ts[k][i] by {
            assert(s[p + (f - p + i)] == ak1[f - p + i]);
        }
    }
    if k + 1 < ts.len() {
        lemma_joined_step(ts, sep, k + 1);
        lemma_joined_prefix(ts, sep, k + 2);
        let ak2 = joined(ts.take(k + 2), sep);
        assert(s.subrange(a, a + sep.len()) =~= sep) by {
            assert forall|i: int| 0 <= i < sep.len() implies s.subrange(a, a + sep.len())[i] == sep[i] by {
                assert(s.subrange(p, p + jt.len())[ak1.len() + i] == s[p + (ak1.len() + i)]);
                assert(jt.subrange(0, ak2.len() as int)[ak1.len() + i] == jt[ak1.len() + i]);
                assert(ak2[ak1.len() + i] == sep[i]);
            }
        }
    } else {
        assert(ts.take(k + 1) =~= ts);
    }
}

/// A part of an import path: `..`, `.` or a name.
pub enum Part {
    Up,
    Here,
    Name(Seq<char>),
}

/// The text of a path part.
pub open spec fn part_text(pt: Part) -> Seq<char> {
    match pt {
        Part::Up => ".."@,
        Part::Here => "."@,
        Part::Name(x) => x,
    }
}

/// A path part whose name is a variable name.
pub open spec fn part_ok(pt: Part) -> bool {
    match pt {
        Part::Name(x) => is_name(x),
        _ => true,
    }
}

/// The texts of path parts.
pub open spec fn part_texts(ps: Seq<Part>) -> Seq<Seq<char>> {
    Seq::new(ps.len(), |i: int| part_text(ps[i]))
}

/// An imported function, with its alias if it has one.
pub struct Item {
    pub name: Seq<char>,
    pub alias: Option<Seq<char>>,
}

/// The text of an imported function: its name, then ` AS ` and the alias if any.
pub open spec fn item_text(it: Item) -> Seq<char> {
    it.name + match it.alias {
        Some(a) => " AS "@ + a,
        None => Seq::empty(),
    }
}

/// An imported function whose names are variable names.
pub open spec fn item_ok(it: Item) -> bool {
    is_name(it.name) && (it.alias matches Some(a) ==> is_name(a))
}

/// The texts of imported functions.
pub open spec fn item_texts(its: Seq<Item>) -> Seq<Seq<char>> {
    Seq::new(its.len(), |i: int| item_text(its[i]))
}

/// What an import brings in: everything, one function, or a bracketed list.
pub enum Items {
    All,
    One(Item),
    Many(Seq<Item>),
}

/// The text of what an import brings in.
pub open spec fn items_text(its: Items) -> Seq<char> {
    match its {
        Items::All => "*"@,
        Items::One(it) => item_text(it),
        Items::Many(v) => "("@ + joined(item_texts(v), ", "@) + ")"@,
    }
}

/// An import: `FROM path IMPORT items`.
pub struct Import {
    pub path: Seq<Part>,
    pub items: Items,
}

/// The text of an import, its path parts joined by `::`.
pub open spec fn import_text(im: Import) -> Seq<char> {
    "FROM "@ + joined(part_texts(im.path), "::"@) + " IMPORT "@ + items_text(im.items)
}

/// An import with a path, names that are variable names, and (in a list) at least one
/// function.
pub open spec fn import_ok(im: Import) -> bool {
    &&& im.path.len() > 0
    &&& forall|i: int| 0 <= i < im.path.len() ==> part_ok(#[trigger] im.path[i])
    &&& match im.items {
        Items::All => true,
        Items::One(it) => item_ok(it),
        Items::Many(v) => v.len() > 0 && forall|i: int| 0 <= i < v.len() ==> item_ok(#[trigger] v[i]),
    }
}

/// The import `im` stands at `p`, on a line of its own from there on.
pub open spec fn import_line_at(s: Seq<char>, p: int, im: Import) -> bool {
    import_ok(im) && line_at(s, p, import_text(im))
}

/// `f` is what the parser makes of the imported function `it`.
pub open spec fn item_parsed(f: ImpFunc, it: Item) -> bool {
    &&& (*f.ident)@ == SExpr::Ident(it.name)
    &&& match (f.alias, it.alias) {
        (Some(a), Some(x)) => (*a)@ == SExpr::Ident(x),
        (None, None) => true,
        _ => false,
    }
}

/// `i` is what the parser makes of the import `im`.
pub open spec fn import_parsed(i: Imp, im: Import) -> bool {
    &&& i.path@.len() == im.path.len()
    &&& forall|k: int| 0 <= k < im.path.len() ==> (#[trigger] i.path@[k])@ == SExpr::Ident(part_text(im.path[k]))
    &&& match (i.funcs, im.items) {
        (ImpFuncs::Wildcard(_), Items::All) => true,
        (ImpFuncs::Funcs(fs), Items::One(it)) => fs@.len() == 1 && item_parsed(fs@[0], it),
        (ImpFuncs::Funcs(fs), Items::Many(v)) => fs@.len() == v.len()
            && forall|k: int| 0 <= k < v.len() ==> item_parsed(#[trigger] fs@[k], v[k]),
        _ => false,
    }
}

/// The path part `pt` stands at `q` (after blanks from `p`), followed by `:` or a blank.
pub open spec fn part_at(s: Seq<char>, p: int, q: int, pt: Part) -> bool {
    &&& 0 <= p <= q
    &&& blanks(s, p, q)
    &&& part_ok(pt)
    &&& q + part_text(pt).len() < s.len()
    &&& s.subrange(q, q + part_text(pt).len()) == part_text(pt)
    &&& (s[q + part_text(pt).len()] == ':' || s[q + part_text(pt).len()] == ' ')
}

/// A character that ends an imported function: a comma, `)` or a line break.
pub open spec fn item_stop(c: char) -> bool {
    c == ',' || c == ')' || c == '\n'
}

/// The imported function `it` stands at `q` (after blanks from `p`), followed by a comma,
/// `)` or a line break.
pub open spec fn item_at(s: Seq<char>, p: int, q: int, it: Item) -> bool {
    &&& 0 <= p <= q
    &&& blanks(s, p, q)
    &&& item_ok(it)
    &&& q + item_text(it).len() < s.len()
    &&& s.subrange(q, q + item_text(it).len()) == item_text(it)
    &&& item_stop(s[q + item_text(it).len()])
}

/// The pieces of an imported function at `q`: its name, and ` AS ` and the alias if any.
proof fn lemma_item(s: Seq<char>, p: int, q: int, it: Item)
    requires
        item_at(s, p, q, it),
    ensures
        ({
            let e = q + it.name.len();
            let t = q + item_text(it).len();
            &&& q < s.len() && blank_stop(s, q)
            &&& side_ready(s, q, Side::Name(it.name))
            &&& (it.alias is None ==> e == t && blanks(s, e, e) && blank_stop(s, e) && !keyword_at(s, e, "AS"@)
                && !keyword_at(s, e, "as"@))
            &&& (it.alias matches Some(a) ==> blanks(s, e, e + 1) && blank_stop(s, e + 1) && keyword_at(s, e + 1, "AS"@)
                && blanks(s, e + 1, e + 1) && blanks(s, e + 3, e + 4) && side_ready(s, e + 4, Side::Name(a))
                && e + 4 + a.len() == t)
            &&& t < s.len() && item_stop(s[t])
        }),
{
    reveal_strlit(" AS ");
    reveal_strlit("AS");
    reveal_strlit("as");
    let x = it.name;
    let tx = item_text(it);
    let e = q + x.len();
    lemma_chars(s, q, tx);
    assert forall|i: int| 0 <= i < x.len() implies s[q + i] == #[trigger] x[i] by {
        assert(tx[i] == x[i]);
    }
    assert(s.subrange(q, q + x.len()) =~= x);
    match it.alias {
        Some(a) => {
            assert(tx =~= x + " AS "@ + a);
            assert forall|i: int| 0 <= i < 4 implies s[e + i] == #[trigger] " AS "@[i] by {
                assert(s[q + (x.len() + i)] == tx[x.len() + i]);
            }
            assert forall|i: int| 0 <= i < a.len() implies s[e + 4 + i] == #[trigger] a[i] by {
                assert(s[q + (x.len() + 4 + i)] == tx[x.len() + 4 + i]);
            }
            assert(s[e + 0] == " AS "@[0]);
            assert(s[e + 1] == " AS "@[1]);
            assert(s[e + 2] == " AS "@[2]);
            assert(s[e + 3] == " AS "@[3]);
            assert(s.subrange(e + 1, e + 3) =~= "AS"@);
            assert(s.subrange(e + 4, e + 4 + a.len()) =~= a);
            lemma_side(s, q, Side::Name(x));
            lemma_side(s, e + 4, Side::Name(a));
        },
        None => {
            assert(tx =~= x);
            lemma_side(s, q, Side::Name(x));
            if keyword_at(s, e, "AS"@) {
                assert(s.subrange(e, e + 2)[0] == s[e]);
            }
            if keyword_at(s, e, "as"@) {
                assert(s.subrange(e, e + 2)[0] == s[e]);
            }
        },
    }
}

/// What an import at `p` looks like, piece by piece.
proof fn lemma_import_head(s: Seq<char>, p: int, im: Import)
    requires
        import_line_at(s, p, im),
        p + import_text(im).len() < s.len(),
    ensures
        ({
            let jt = joined(part_texts(im.path), "::"@);
            let e = p + 5 + jt.len();
            let t = e + 8;
            let it = items_text(im.items);
            &&& 0 <= p && blanks(s, p, p) && blank_stop(s, p)
            &&& keyword_at(s, p, "FROM"@)
            &&& is_blank(s[p + 4])
            &&& s.subrange(p + 5, e) == jt
            &&& e + 1 < s.len() && s[e] == ' ' && s[e + 1] == 'I'
            &&& blanks(s, e + 1, e + 1) && blank_stop(s, e + 1)
            &&& keyword_at(s, e + 1, "IMPORT"@)
            &&& is_blank(s[e + 7])
            &&& t + it.len() == p + import_text(im).len()
            &&& s.subrange(t, t + it.len()) == it
            &&& s[t + it.len()] == '\n'
        }),
{
    reveal_strlit("FROM ");
    reveal_strlit("FROM");
    reveal_strlit(" IMPORT ");
    reveal_strlit("IMPORT");
    let jt = joined(part_texts(im.path), "::"@);
    let it = items_text(im.items);
    let w = import_text(im);
    let e = p + 5 + jt.len();
    let t = e + 8;
    assert(w =~= "FROM "@ + jt + " IMPORT "@ + it);
    assert(w.len() == 5 + jt.len() + 8 + it.len());
    lemma_chars(s, p, w);
    assert forall|i: int| 0 <= i < 5 implies s[p + i] == #[trigger] "FROM "@[i] by {
        assert(w[i] == "FROM "@[i]);
    }
    assert forall|i: int| 0 <= i < jt.len() implies s[p + 5 + i] == #[trigger] jt[i] by {
        assert(s[p + (5 + i)] == w[5 + i]);
        assert(w[5 + i] == jt[i]);
    }
    assert forall|i: int| 0 <= i < 8 implies s[e + i] == #[trigger] " IMPORT "@[i] by {
        assert(s[p + (5 + jt.len() + i)] == w[5 + jt.len() + i]);
        assert(w[5 + jt.len() + i] == " IMPORT "@[i]);
    }
    assert forall|i: int| 0 <= i < it.len() implies s[t + i] == #[trigger] it[i] by {
        assert(s[p + (13 + jt.len() + i)] == w[13 + jt.len() + i]);
        assert(w[13 + jt.len() + i] == it[i]);
    }
    assert(s[p + 0] == "FROM "@[0]);
    assert(s[p + 1] == "FROM "@[1]);
    assert(s[p + 2] == "FROM "@[2]);
    assert(s[p + 3] == "FROM "@[3]);
    assert(s[p + 4] == "FROM "@[4]);
    assert(s.subrange(p, p + 4) =~= "FROM"@);
    assert(s.subrange(p + 5, e) =~= jt) by {
        assert forall|i: int| 0 <= i < jt.len() implies s.subrange(p + 5, e)[i] == jt[i] by {
            assert(s[p + 5 + i] == jt[i]);
        }
    }
    assert(s[e + 0] == " IMPORT "@[0]);
    assert(s[e + 1] == " IMPORT "@[1]);
    assert(s[e + 2] == " IMPORT "@[2]);
    assert(s[e + 3] == " IMPORT "@[3]);
    assert(s[e + 4] == " IMPORT "@[4]);
    assert(s[e + 5] == " IMPORT "@[5]);
    assert(s[e + 6] == " IMPORT "@[6]);
    assert(s[e + 7] == " IMPORT "@[7]);
    assert(s.subrange(e + 1, e + 7) =~= "IMPORT"@);
    assert(s.subrange(t, t + it.len()) =~= it) by {
        assert forall|i: int| 0 <= i < it.len() implies s.subrange(t, t + it.len())[i] == it[i] by {
            assert(s[t + i] == it[i]);
        }
    }
}

/// What the items of an import at `t` look like, when a line break follows them.
proof fn lemma_import_items(s: Seq<char>, t: int, its: Items)
    requires
        0 <= t,
        t + items_text(its).len() < s.len(),
        s.subrange(t, t + items_text(its).len()) == items_text(its),
        s[t + items_text(its).len()] == '\n',
        match its {
            Items::All => true,
            Items::One(it) => item_ok(it),
            Items::Many(v) => v.len() > 0 && forall|i: int| 0 <= i < v.len() ==> item_ok(#[trigger] v[i]),
        },
    ensures
        t + 1 < s.len(),
        blanks(s, t, t) && blank_stop(s, t),
        (s.subrange(t, t + 1) == "*"@) == (its is All),
        (s.subrange(t, t + 1) == "("@) == (its is Many),
        its is All ==> items_text(its).len() == 1,
        its matches Items::One(it) ==> item_at(s, t, t, it),
        its matches Items::Many(v) ==> ({
            let jt = joined(item_texts(v), ", "@);
            &&& s.subrange(t + 1, t + 1 + jt.len()) == jt
            &&& s[t + 1 + jt.len()] == ')'
            &&& t + 2 + jt.len() == t + items_text(its).len()
        }),
{
    reveal_strlit("*");
    reveal_strlit("(");
    reveal_strlit(")");
    let w = items_text(its);
    lemma_chars(s, t, w);
    lemma_one(s, t, "*"@);
    lemma_one(s, t, "("@);
    assert(s[t + 0] == w[0]);
    match its {
        Items::All => {},
        Items::One(it) => {
            assert(w[0] == it.name[0]);
            assert(blanks(s, t, t));
        },
        Items::Many(v) => {
            let jt = joined(item_texts(v), ", "@);
            assert(w =~= "("@ + jt + ")"@);
            assert(s.subrange(t + 1, t + 1 + jt.len()) =~= jt) by {
                assert forall|i: int| 0 <= i < jt.len() implies s.subrange(t + 1, t + 1 + jt.len())[i] == jt[i] by {
                    assert(s[t + (1 + i)] == w[1 + i]);
                }
            }
            assert(s[t + (1 + jt.len())] == w[1 + jt.len() as int]);
        },
    }
}

/// Every character from `from` on separates.
spec fn blank_from(s: Seq<char>, from: int) -> bool {
    forall|i: int| from <= i < s.len() ==> is_sep(#[trigger] s[i])
}

/// Every statement of `h` carries the line number `l`.
pub open spec fn lnos_are(h: Hir, l: LineNo) -> bool
    decreases h,
{
    match h {
        Hir::Expr(x) => x@ is Assign ==> x@->Assign_lno == l,
        Hir::Macro(m) => m.lno() == l && match m {
            Macro::Conditional { if_terms, else_terms, .. } => lnos_are(*if_terms, l) && match *else_terms {
                Some(e) => lnos_are(e, l),
                None => true,
            },
            _ => true,
        },
        Hir::Function(Func::Call { lno, .. }) => lno == l,
        Hir::NoOp => true,
        Hir::Control(Control::Terms(ts)) => forall|i: int| 0 <= i < ts@.len() ==> lnos_are(#[trigger] ts@[i], l),
        Hir::Control(Control::Loop { lno, terms, .. }) => lno == l && lnos_are(*terms, l),
        Hir::Control(Control::While { lno, terms, .. }) => lno == l && lnos_are(*terms, l),
    }
}

/// Every import, function declaration and statement of `m` carries the line number `l`.
pub open spec fn module_lnos_are(m: Module, l: LineNo) -> bool {
    &&& lnos_are(m.code, l)
    &&& forall|k: int| 0 <= k < m.decl@.len() ==> (#[trigger] m.decl@[k]).lno == l && lnos_are(*m.decl@[k].terms, l)
    &&& forall|k: int| 0 <= k < m.imp@.len() ==> (#[trigger] m.imp@[k]).lno == l
}

/// A module of the shapes the parser produces.
pub open spec fn module_wf(m: Module) -> bool {
    &&& stmt_wf(m.code)
    &&& forall|k: int| 0 <= k < m.decl@.len() ==> decl_wf(#[trigger] m.decl@[k])
    &&& forall|k: int| 0 <= k < m.imp@.len() ==> imp_wf(#[trigger] m.imp@[k])
}

/// Where and why parsing stopped.
struct Fail {
    line: usize,
    col: usize,
    pos: usize,
    message: String,
}

/// The state of a parse: the source, the position and its line and column.
struct Cursor {
    text: String,
    src: Vec<char>,
    pos: usize,
    line: usize,
    line_start: usize,
    lno: Option<LineNo>,
}

impl Cursor {
    spec fn rest(&self) -> int {
        self.src@.len() - self.pos
    }

    spec fn ok(&self) -> bool {
        self.pos <= self.src@.len() && self.line_start <= self.pos && self.text@ == self.src@
            && self.src@.len() < usize::MAX
    }

    spec fn same_src(&self, other: &Cursor) -> bool {
        self.src@ == other.src@ && self.lno == other.lno && self.text@ == other.text@
    }

    /// The source text from `start` to the position.
    fn text_from(&self, start: usize) -> (r: String)
        requires
            self.ok(),
            start <= self.pos,
        ensures
            r@ == self.src@.subrange(start as int, self.pos as int),
    {
        String::from_str(self.text.as_str().substring_char(start, self.pos))
    }

    fn at_end(&self) -> (r: bool)
        requires
            self.ok(),
        ensures
            r == (self.pos >= self.src@.len()),
    {
        self.pos >= self.src.len()
    }

    /// The character at the position, if any.
    fn peek(&self) -> (r: Option<char>)
        requires
            self.ok(),
        ensures
            r matches Some(c) ==> self.pos < self.src@.len() && c == self.src@[self.pos as int],
            r is None <==> self.pos >= self.src@.len(),
    {
        if self.pos < self.src.len() {
            Some(self.src[self.pos])
        } else {
            None
        }
    }

    /// The character `k` places after the position, if any.
    fn peek_at(&self, k: usize) -> (r: Option<char>)
        requires
            self.ok(),
        ensures
            r matches Some(c) ==> self.pos + k < self.src@.len() && c == self.src@[self.pos + k],
            r is None <==> self.pos + k >= self.src@.len(),
    {
        if k < self.src.len() - self.pos {
            Some(self.src[self.pos + k])
        } else {
            None
        }
    }

    /// Moves one character ahead.
    fn advance(&mut self)
        requires
            old(self).ok(),
            old(self).pos < old(self).src@.len(),
        ensures
            final(self).ok(),
            final(self).same_src(old(self)),
            final(self).pos == old(self).pos + 1,
    {
        if self.src[self.pos] == '\n' {
            if self.line < usize::MAX {
                self.line = self.line + 1;
            }
            self.line_start = self.pos + 1;
        }
        self.pos = self.pos + 1;
    }

    fn fail(&self, message: &str) -> (r: Fail)
        requires
            self.ok(),
        ensures
            r.line == self.line,
            r.col == self.pos - self.line_start + 1,
            r.pos == self.pos,
            r.message@ == message@,
    {
        Fail { line: self.line, col: self.col(), pos: self.pos, message: String::from_str(message) }
    }

    /// The column of the position (1 for the first character of a line).
    fn col(&self) -> (r: usize)
        requires
            self.ok(),
        ensures
            r == self.pos - self.line_start + 1,
    {
        self.pos - self.line_start + 1
    }

    /// Skips spaces, tabs and comments (`#` to the end of the line).
    fn skip_ws(&mut self)
        requires
            old(self).ok(),
        ensures
            final(self).ok(),
            final(self).same_src(old(self)),
            final(self).pos >= old(self).pos,
            blank_from(old(self).src@, old(self).pos as int) ==> final(self).pos == old(self).src@.len()
                || final(self).src@[final(self).pos as int] == '\n' || final(self).src@[final(self).pos as int] == ';',
            forall|q: int| #![trigger blanks(old(self).src@, old(self).pos as int, q)] old(self).pos <= q <= old(self).src@.len() && blanks(old(self).src@, old(self).pos as int, q)
                && blank_stop(old(self).src@, q) ==> final(self).pos == q,
    {
        loop
            invariant
                self.ok(),
                self.same_src(old(self)),
                self.pos >= old(self).pos,
                forall|q: int| #![trigger blanks(old(self).src@, old(self).pos as int, q)] old(self).pos <= q <= old(self).src@.len() && blanks(old(self).src@, old(self).pos as int, q)
                    && blank_stop(old(self).src@, q) ==> self.pos <= q && blanks(old(self).src@, old(self).pos as int, self.pos as int),
            ensures
                self.ok(),
                self.same_src(old(self)),
                self.pos >= old(self).pos,
                blank_from(old(self).src@, old(self).pos as int) ==> self.pos == self.src@.len()
                    || self.src@[self.pos as int] == '\n' || self.src@[self.pos as int] == ';',
                forall|q: int| #![trigger blanks(old(self).src@, old(self).pos as int, q)] old(self).pos <= q <= old(self).src@.len() && blanks(old(self).src@, old(self).pos as int, q)
                    && blank_stop(old(self).src@, q) ==> self.pos == q,
            decreases self.src@.len() - self.pos,
        {
            match self.peek() {
                Some(c) => {
                    if c == ' ' || c == '\t' || c == '\r' {
                        self.advance();
                    } else if c == '#' {
                        assert(!blank_from(old(self).src@, old(self).pos as int));
                        let ghost p0 = self.pos;
                        self.advance();
                        while self.pos < self.src.len() && self.src[self.pos] != '\n'
                            invariant
                                self.ok(),
                                self.same_src(old(self)),
                                self.pos >= old(self).pos,
                                self.pos > p0,
                            decreases self.src@.len() - self.pos,
                        {
                            self.advance();
                        }
                    } else {
                        break;
                    }
                },
                None => {
                    break;
                },
            }
        }
    }

    /// Skips blanks, line breaks and `;`; whether one line break or `;` was skipped.
    fn skip_seps(&mut self) -> (r: bool)
        requires
            old(self).ok(),
        ensures
            final(self).ok(),
            final(self).same_src(old(self)),
            final(self).pos >= old(self).pos,
            blank_from(old(self).src@, old(self).pos as int) ==> final(self).pos == old(self).src@.len(),
            old(self).pos == old(self).src@.len() || plain_char(old(self).src@[old(self).pos as int])
                ==> final(self).pos == old(self).pos && !r,
            old(self).pos < old(self).src@.len() && old(self).src@[old(self).pos as int] == '\n'
                && (old(self).pos + 1 == old(self).src@.len() || plain_char(old(self).src@[old(self).pos + 1]))
                ==> final(self).pos == old(self).pos + 1 && r,
    {
        let ghost p0 = self.pos as int;
        let ghost s0 = self.src@;
        let ghost at_plain = p0 == s0.len() || plain_char(s0[p0]);
        let ghost at_break = p0 < s0.len() && s0[p0] == '\n' && (p0 + 1 == s0.len() || plain_char(s0[p0 + 1]));
        let mut seen = false;
        loop
            invariant
                self.ok(),
                self.same_src(old(self)),
                self.pos >= old(self).pos,
                p0 == old(self).pos,
                s0 == self.src@,
                at_plain == (p0 == s0.len() || plain_char(s0[p0])),
                at_break == (p0 < s0.len() && s0[p0] == '\n' && (p0 + 1 == s0.len() || plain_char(s0[p0 + 1]))),
                at_plain ==> self.pos == p0 && !seen,
                at_break ==> (self.pos == p0 && !seen) || (self.pos == p0 + 1 && seen),
            ensures
                self.ok(),
                self.same_src(old(self)),
                self.pos >= old(self).pos,
                blank_from(old(self).src@, old(self).pos as int) ==> self.pos == old(self).src@.len(),
                at_plain ==> self.pos == p0 && !seen,
                at_break ==> self.pos == p0 + 1 && seen,
            decreases self.src@.len() - self.pos,
        {
            proof {
                let q = self.pos as int;
                if at_plain || at_break {
                    assert(blanks(self.src@, q, q));
                    if q < self.src@.len() {
                        if q == p0 {
                            if at_break {
                                assert(s0[p0] == '\n');
                            } else {
                                assert(plain_char(s0[p0]));
                            }
                        } else {
                            assert(q == p0 + 1);
                            assert(plain_char(s0[p0 + 1]));
                        }
                        assert(!is_blank(self.src@[q]) && self.src@[q] != '#');
                    }
                    assert(blank_stop(self.src@, q));
                }
            }
            self.skip_ws();
            match self.peek() {
                Some(c) => {
                    if c == '\n' || c == ';' {
                        self.advance();
                        seen = true;
                    } else {
                        break;
                    }
                },
                None => {
                    break;
                },
            }
        }
        seen
    }

    /// The line number of a statement that started on line `start`.
    fn lno_from(&self, start: usize) -> (r: LineNo)
        ensures
            self.lno matches Some(l) ==> r == l,
    {
        match self.lno {
            Some(l) => l,
            None => (start, self.line),
        }
    }

    /// Whether the keyword `kw` stands at the position (not followed by an identifier
    /// character).
    fn at_keyword(&self, kw: &str) -> (r: bool)
        requires
            self.ok(),
        ensures
            r ==> self.pos + kw@.len() <= self.src@.len(),
            r == (self.pos + kw@.len() <= self.src@.len()
                && self.src@.subrange(self.pos as int, self.pos + kw@.len()) == kw@
                && (self.pos + kw@.len() == self.src@.len() || !spec_is_ident_char(self.src@[self.pos + kw@.len()]))),
    {
        let n = kw.unicode_len();
        if n > self.src.len() - self.pos {
            return false;
        }
        let mut i: usize = 0;
        while i < n
            invariant
                self.ok(),
                n == kw@.len(),
                n <= self.src@.len() - self.pos,
                i <= n,
                forall|j: int| 0 <= j < i ==> self.src@[self.pos + j] == kw@[j],
            decreases n - i,
        {
            if self.src[self.pos + i] != kw.get_char(i) {
                assert(self.src@.subrange(self.pos as int, self.pos + n)[i as int] != kw@[i as int]);
                return false;
            }
            i = i + 1;
        }
        assert(self.src@.subrange(self.pos as int, self.pos + n) =~= kw@);
        match self.peek_at(n) {
            Some(c) => !is_ident_char(c),
            None => true,
        }
    }

    /// Whether the symbol `sym` stands at the position.
    fn at_symbol(&self, sym: &str) -> (r: bool)
        requires
            self.ok(),
        ensures
            r ==> self.pos + sym@.len() <= self.src@.len(),
            r == (self.pos + sym@.len() <= self.src@.len()
                && self.src@.subrange(self.pos as int, self.pos + sym@.len()) == sym@),
    {
        let n = sym.unicode_len();
        if n > self.src.len() - self.pos {
            return false;
        }
        let mut i: usize = 0;
        while i < n
            invariant
                self.ok(),
                n == sym@.len(),
                n <= self.src@.len() - self.pos,
                i <= n,
                forall|j: int| 0 <= j < i ==> self.src@[self.pos + j] == sym@[j],
            decreases n - i,
        {
            if self.src[self.pos + i] != sym.get_char(i) {
                assert(self.src@.subrange(self.pos as int, self.pos + n)[i as int] != sym@[i as int]);
                return false;
            }
            i = i + 1;
        }
        assert(self.src@.subrange(self.pos as int, self.pos + n) =~= sym@);
        true
    }

    /// Moves `n` characters ahead.
    fn skip(&mut self, n: usize)
        requires
            old(self).ok(),
            old(self).pos + n <= old(self).src@.len(),
        ensures
            final(self).ok(),
            final(self).same_src(old(self)),
            final(self).pos == old(self).pos + n,
    {
        let mut i: usize = 0;
        while i < n
            invariant
                self.ok(),
                self.same_src(old(self)),
                i <= n,
                self.pos == old(self).pos + i,
                old(self).pos + n <= old(self).src@.len(),
            decreases n - i,
        {
            self.advance();
            i = i + 1;
        }
    }

    /// Consumes the keyword `kw` (after blanks), or fails.
    fn expect_keyword(&mut self, kw: &str) -> (r: Result<(), Fail>)
        requires
            old(self).ok(),
        ensures
            final(self).ok(),
            final(self).same_src(old(self)),
            r is Ok ==> final(self).pos > old(self).pos,
            final(self).pos >= old(self).pos,
            forall|q: int| #![trigger blanks(old(self).src@, old(self).pos as int, q)] old(self).pos <= q < old(self).src@.len()
                && blanks(old(self).src@, old(self).pos as int, q) && blank_stop(old(self).src@, q) && kw@.len() > 0
                && keyword_at(old(self).src@, q, kw@) ==> (r is Ok && final(self).pos == q + kw@.len()),
    {
        self.skip_ws();
        if kw.unicode_len() > 0 && self.at_keyword(kw) {
            self.skip(kw.unicode_len());
            Ok(())
        } else {
            let mut msg = String::from_str("expected ");
            msg.append(kw);
            Err(Fail { line: self.line, col: self.col(), pos: self.pos, message: msg })
        }
    }

    /// Consumes the symbol `sym` (after blanks), or fails.
    fn expect_symbol(&mut self, sym: &str) -> (r: Result<(), Fail>)
        requires
            old(self).ok(),
        ensures
            final(self).ok(),
            final(self).same_src(old(self)),
            r is Ok ==> final(self).pos > old(self).pos,
            final(self).pos >= old(self).pos,
            forall|q: int| #![trigger blanks(old(self).src@, old(self).pos as int, q)] old(self).pos <= q < old(self).src@.len() && blanks(old(self).src@, old(self).pos as int, q)
                && blank_stop(old(self).src@, q) && sym@.len() > 0 && q + sym@.len() <= old(self).src@.len()
                && old(self).src@.subrange(q, q + sym@.len()) == sym@ ==> (r is Ok && final(self).pos == q + sym@.len()),
    {
        let ghost s0 = self.src@;
        let ghost p0 = self.pos as int;
        self.skip_ws();
        if sym.unicode_len() > 0 && self.at_symbol(sym) {
            self.skip(sym.unicode_len());
            Ok(())
        } else {
            let mut msg = String::from_str("expected ");
            msg.append(sym);
            Err(Fail { line: self.line, col: self.col(), pos: self.pos, message: msg })
        }
    }

    /// An identifier (after blanks): a letter or `_`, then letters, digits and `_`.
    fn ident(&mut self) -> (r: Result<Expr, Fail>)
        requires
            old(self).ok(),
        ensures
            final(self).ok(),
            final(self).same_src(old(self)),
            r is Ok ==> final(self).pos > old(self).pos,
            final(self).pos >= old(self).pos,
            r matches Ok(e) ==> e@ is Ident,
            forall|q: int| #![trigger blanks(old(self).src@, old(self).pos as int, q)] old(self).pos <= q < old(self).src@.len() && blanks(old(self).src@, old(self).pos as int, q)
                && (spec_is_letter(old(self).src@[q]) || old(self).src@[q] == '_') ==> (r matches Ok(e)
                && e@ == SExpr::Ident(old(self).src@.subrange(q, ident_end(old(self).src@, q)))
                && final(self).pos == ident_end(old(self).src@, q)),
    {
        let ghost s0 = self.src@;
        let ghost p0 = self.pos as int;
        self.skip_ws();
        let ghost p1 = self.pos as int;
        match self.peek() {
            Some(c) => {
                if !(is_letter(c) || c == '_') {
                    proof {
                        assert forall|q: int| p0 <= q < s0.len() && blanks(s0, p0, q)
                            && (spec_is_letter(s0[q]) || s0[q] == '_') implies false by {
                            assert(blank_stop(s0, q));
                        }
                    }
                    return Err(self.fail("expected an identifier"));
                }
            },
            None => {
                proof {
                    assert forall|q: int| p0 <= q < s0.len() && blanks(s0, p0, q)
                        && (spec_is_letter(s0[q]) || s0[q] == '_') implies false by {
                        assert(blank_stop(s0, q));
                    }
                }
                return Err(self.fail("expected an identifier"));
            },
        }
        proof {
            assert forall|q: int| p0 <= q < s0.len() && blanks(s0, p0, q)
                && (spec_is_letter(s0[q]) || s0[q] == '_') implies q == p1 by {
                assert(blank_stop(s0, q));
            }
        }
        let start = self.pos;
        loop
            invariant
                self.ok(),
                self.same_src(old(self)),
                self.pos >= start,
                start >= old(self).pos,
                s0 == self.src@,
                start == p1,
                ident_end(s0, self.pos as int) == ident_end(s0, start as int),
                forall|k: int| start <= k < self.pos ==> spec_is_ident_char(#[trigger] s0[k]),
            ensures
                self.ok(),
                self.same_src(old(self)),
                self.pos >= start,
                start >= old(self).pos,
                self.pos == ident_end(s0, start as int),
            decreases self.src@.len() - self.pos,
        {
            match self.peek() {
                Some(c) => {
                    if is_ident_char(c) {
                        self.advance();
                    } else {
                        break;
                    }
                },
                None => {
                    break;
                },
            }
        }
        proof {
            lemma_ident_end(s0, start as int);
        }
        if self.pos == start {
            return Err(self.fail("expected an identifier"));
        }
        Ok(Expr::Ident(self.text_from(start)))
    }

    /// A path part (after blanks): an identifier, `.` or `..`. The part `pt` written at
    /// `q` after blanks is read as itself.
    fn path_part(&mut self, Ghost(pt): Ghost<Part>, Ghost(q): Ghost<int>) -> (r: Result<Expr, Fail>)
        requires
            old(self).ok(),
        ensures
            final(self).ok(),
            final(self).same_src(old(self)),
            r is Ok ==> final(self).pos > old(self).pos,
            final(self).pos >= old(self).pos,
            r matches Ok(e) ==> e@ is Ident,
            part_at(old(self).src@, old(self).pos as int, q, pt) ==> (r matches Ok(e) && e@ == SExpr::Ident(part_text(pt))
                && final(self).pos == q + part_text(pt).len()),
    {
        let ghost s0 = self.src@;
        let ghost p0 = self.pos as int;
        let ghost good = part_at(s0, p0, q, pt);
        proof {
            reveal_strlit("..");
            reveal_strlit(".");
            reveal_strlit("...");
            if good {
                let w = part_text(pt);
                lemma_chars(s0, q, w);
                assert(s0[q + 0] == w[0]);
                lemma_two(s0, q, ".."@);
                lemma_one(s0, q, "."@);
                if q + 3 <= s0.len() && s0.subrange(q, q + 3) == "..."@ {
                    assert(s0.subrange(q, q + 3)[1] == s0[q + 1]);
                }
                match pt {
                    Part::Up => {
                        assert(s0[q + 1] == w[1]);
                    },
                    Part::Here => {},
                    Part::Name(x) => {
                        lemma_side(s0, q, Side::Name(x));
                        assert(blanks(s0, q, q));
                    },
                }
                assert(blank_stop(s0, q));
            }
        }
        self.skip_ws();
        assert(good ==> self.pos == q);
        if self.at_symbol("..") {
            self.skip("..".unicode_len());
            Ok(Expr::Ident(String::from_str("..")))
        } else if self.at_symbol(".") && !self.at_symbol("...") {
            self.skip(".".unicode_len());
            Ok(Expr::Ident(String::from_str(".")))
        } else {
            self.ident()
        }
    }

    /// A natural number (after blanks): decimal digits.
    fn value(&mut self) -> (r: Result<Expr, Fail>)
        requires
            old(self).ok(),
        ensures
            final(self).ok(),
            final(self).same_src(old(self)),
            r is Ok ==> final(self).pos > old(self).pos,
            final(self).pos >= old(self).pos,
            r matches Ok(e) ==> e@ is Num,
            forall|q: int| #![trigger blanks(old(self).src@, old(self).pos as int, q)] old(self).pos <= q < old(self).src@.len() && blanks(old(self).src@, old(self).pos as int, q)
                && '0' <= old(self).src@[q] <= '9' ==> (r matches Ok(e)
                && e@ == SExpr::Num(decimal_value(old(self).src@.subrange(q, digits_end(old(self).src@, q))))
                && final(self).pos == digits_end(old(self).src@, q)),
    {
        let ghost s0 = self.src@;
        let ghost p0 = self.pos as int;
        self.skip_ws();
        let start = self.pos;
        proof {
            assert forall|q: int| p0 <= q < s0.len() && blanks(s0, p0, q) && '0' <= s0[q] <= '9' implies q == start by {
                assert(blank_stop(s0, q));
            }
        }
        loop
            invariant
                self.ok(),
                self.same_src(old(self)),
                self.pos >= start,
                start >= old(self).pos,
                forall|k: int| start <= k < self.pos ==> '0' <= #[trigger] self.src@[k] <= '9',
                s0 == self.src@,
                digits_end(s0, self.pos as int) == digits_end(s0, start as int),
            ensures
                self.ok(),
                self.same_src(old(self)),
                self.pos >= start,
                start >= old(self).pos,
                forall|k: int| start <= k < self.pos ==> '0' <= #[trigger] self.src@[k] <= '9',
                self.pos == digits_end(s0, start as int),
            decreases self.src@.len() - self.pos,
        {
            match self.peek() {
                Some(c) => {
                    if '0' <= c && c <= '9' {
                        self.advance();
                    } else {
                        break;
                    }
                },
                None => {
                    break;
                },
            }
        }
        proof {
            lemma_digits_end(s0, start as int);
        }
        if self.pos == start {
            return Err(self.fail("expected a number"));
        }
        let s = self.text_from(start);
        proof {
            assert forall|k: int| 0 <= k < s@.len() implies '0' <= #[trigger] s@[k] <= '9' by {
                assert(s@[k] == self.src@[start + k]);
            }
        }
        let n = UInt::from_decimal(s.as_str());
        Ok(Expr::NaturalNumber(n))
    }

    /// An identifier or a number (after blanks).
    fn atom(&mut self) -> (r: Result<Expr, Fail>)
        requires
            old(self).ok(),
        ensures
            final(self).ok(),
            final(self).same_src(old(self)),
            r is Ok ==> final(self).pos > old(self).pos,
            final(self).pos >= old(self).pos,
            r matches Ok(e) ==> is_atom(e),
            forall|q: int| #![trigger blanks(old(self).src@, old(self).pos as int, q)] old(self).pos <= q < old(self).src@.len() && blanks(old(self).src@, old(self).pos as int, q)
                && '0' <= old(self).src@[q] <= '9' ==> (r matches Ok(e)
                && e@ == SExpr::Num(decimal_value(old(self).src@.subrange(q, digits_end(old(self).src@, q))))
                && final(self).pos == digits_end(old(self).src@, q)),
            forall|q: int| #![trigger blanks(old(self).src@, old(self).pos as int, q)] old(self).pos <= q < old(self).src@.len() && blanks(old(self).src@, old(self).pos as int, q)
                && (spec_is_letter(old(self).src@[q]) || old(self).src@[q] == '_') ==> (r matches Ok(e)
                && e@ == SExpr::Ident(old(self).src@.subrange(q, ident_end(old(self).src@, q)))
                && final(self).pos == ident_end(old(self).src@, q)),
    {
        let ghost s0 = self.src@;
        let ghost p0 = self.pos as int;
        self.skip_ws();
        let ghost p1 = self.pos as int;
        proof {
            assert forall|q: int| p0 <= q < s0.len() && blanks(s0, p0, q) && ('0' <= s0[q] <= '9' || spec_is_letter(s0[q])
                || s0[q] == '_') implies q == p1 by {
                assert(blank_stop(s0, q));
            }
            assert(blanks(s0, p1, p1));
        }
        match self.peek() {
            Some(c) => {
                if '0' <= c && c <= '9' {
                    self.value()
                } else {
                    self.ident()
                }
            },
            None => Err(self.fail("expected an identifier or a number")),
        }
    }

    /// A comparison operator (after blanks). The operator `verb` written after a blank, and
    /// followed by one, is read as itself.
    fn comparison_verb(&mut self, Ghost(verb): Ghost<ComparisonVerb>) -> (r: Result<ComparisonVerb, Fail>)
        requires
            old(self).ok(),
        ensures
            final(self).ok(),
            final(self).same_src(old(self)),
            final(self).pos >= old(self).pos,
            old(self).pos < old(self).src@.len() && old(self).src@[old(self).pos as int] == ' '
                && verb_at(old(self).src@, old(self).pos + 1, verb) ==> (r == Ok::<ComparisonVerb, Fail>(verb)
                && final(self).pos == old(self).pos + 1 + comparison_verb_text(verb).len()),
    {
        let ghost s0 = self.src@;
        let ghost p0 = self.pos as int;
        let ghost good = p0 < s0.len() && s0[p0] == ' ' && verb_at(s0, p0 + 1, verb);
        let ghost q = p0 + 1;
        proof {
            reveal_strlit("==");
            reveal_strlit("!=");
            reveal_strlit(">=");
            reveal_strlit("<=");
            reveal_strlit(">");
            reveal_strlit("<");
            if good {
                lemma_verb_chars(s0, q, verb);
                assert(blanks(s0, p0, q));
                lemma_two(s0, q, "=="@);
                lemma_two(s0, q, "!="@);
                lemma_two(s0, q, ">="@);
                lemma_two(s0, q, "<="@);
                lemma_one(s0, q, ">"@);
                lemma_one(s0, q, "<"@);
            }
        }
        self.skip_ws();
        assert(good ==> self.pos == q);
        if self.at_symbol("==") {
            self.skip("==".unicode_len());
            Ok(ComparisonVerb::Equal)
        } else if self.at_symbol("!=") {
            self.skip("!=".unicode_len());
            Ok(ComparisonVerb::NotEqual)
        } else if self.at_symbol(">=") {
            self.skip(">=".unicode_len());
            Ok(ComparisonVerb::GreaterThanEqual)
        } else if self.at_symbol("<=") {
            self.skip("<=".unicode_len());
            Ok(ComparisonVerb::LessThanEqual)
        } else if self.at_symbol(">") {
            self.skip(">".unicode_len());
            Ok(ComparisonVerb::GreaterThan)
        } else if self.at_symbol("<") {
            self.skip("<".unicode_len());
            Ok(ComparisonVerb::LessThan)
        } else {
            Err(self.fail("expected a comparison"))
        }
    }

    /// `atom verb atom`. A condition written after a blank, and followed by one, is read
    /// as itself.
    fn comparison(&mut self, Ghost(cd): Ghost<Cond>) -> (r: Result<Expr, Fail>)
        requires
            old(self).ok(),
        ensures
            final(self).ok(),
            final(self).same_src(old(self)),
            final(self).pos >= old(self).pos,
            r matches Ok(e) ==> is_atom_comparison(e@),
            cond_after(old(self).src@, old(self).pos as int, cd) ==> (r matches Ok(e) && e@ == cond_expr(cd)
                && final(self).pos == old(self).pos + 1 + cond_text(cd).len()),
    {
        let ghost s0 = self.src@;
        let ghost p0 = self.pos as int;
        let ghost good = cond_after(s0, p0, cd);
        let ghost g = p0 + 1 + side_text(cd.l).len();
        let ghost h = g + 1 + comparison_verb_text(cd.verb).len();
        proof {
            if good {
                lemma_cond(s0, p0, cd);
            }
        }
        let lhs = self.atom()?;
        assert(good ==> lhs@ == side_expr(cd.l) && self.pos == g);
        let verb = self.comparison_verb(Ghost(cd.verb))?;
        assert(good ==> verb == cd.verb && self.pos == h);
        let rhs = self.atom()?;
        assert(good ==> rhs@ == side_expr(cd.r) && self.pos == p0 + 1 + cond_text(cd).len());
        let ghost lv = lhs@;
        let ghost rv = rhs@;
        let r = Expr::Comparison { lhs: Box::new(lhs), verb, rhs: Box::new(rhs) };
        assert(r@ == SExpr::Comparison { lhs: Box::new(lv), verb, rhs: Box::new(rv) });
        Ok(r)
    }
}

/// Whether the next token ends a statement list: the end, `END`, or (when `stop_else`)
/// `ELSE`.
fn at_stop(c: &Cursor, stop_else: bool) -> (r: bool)
    requires
        c.ok(),
    ensures
        r == (c.pos >= c.src@.len() || keyword_at(c.src@, c.pos as int, "END"@)
            || (stop_else && keyword_at(c.src@, c.pos as int, "ELSE"@))),
{
    c.at_end() || c.at_keyword("END") || (stop_else && c.at_keyword("ELSE"))
}

/// A non-empty list of statements, separated by line breaks or `;`, up to `END` (or
/// `ELSE`, or the end of the source). A straight-line program written out to the end of
/// the source is read back statement by statement.
fn block(c: &mut Cursor, stop_else: bool, Ghost(sts): Ghost<Seq<Stmt>>) -> (r: Result<Hir, Fail>)
    requires
        old(c).ok(),
    ensures
        final(c).ok(),
        final(c).same_src(old(c)),
        final(c).pos >= old(c).pos,
        r matches Ok(h) ==> stmt_wf(h),
        old(c).lno matches Some(l) ==> (r matches Ok(h) ==> lnos_are(h, l)),
        block_at(old(c).src@, old(c).pos as int, sts, stop_else) ==> (r matches Ok(Hir::Control(Control::Terms(v)))
            && v@.len() == sts.len() && (forall|i: int| 0 <= i < sts.len() ==> parsed_as(#[trigger] v@[i], sts[i]))
            && final(c).pos == body_start(old(c).src@, old(c).pos as int) + body_text(sts).len()),
    decreases old(c).src@.len() - old(c).pos, 1nat,
{
    let ghost s0 = c.src@;
    let ghost p0 = c.pos as int;
    let ghost good = block_at(s0, p0, sts, stop_else);
    let ghost b0 = body_start(s0, p0);
    let ghost q = b0 + body_text(sts).len();
    let ghost mut k: int = 0;
    proof {
        if good {
            lemma_body_line(s0, b0, sts, 0);
            lemma_stmt_start(s0, b0, sts[0]);
        }
    }
    let mut stmts: Vec<Hir> = Vec::new();
    c.skip_seps();
    assert(good ==> c.pos == b0);
    loop
        invariant
            c.ok(),
            c.same_src(old(c)),
            c.pos >= old(c).pos,
            s0 == c.src@,
            p0 == old(c).pos,
            good == block_at(s0, p0, sts, stop_else),
            b0 == body_start(s0, p0),
            q == b0 + body_text(sts).len(),
            forall|j: int| 0 <= j < stmts@.len() ==> stmt_wf(#[trigger] stmts@[j]),
            old(c).lno matches Some(l) ==> forall|j: int| 0 <= j < stmts@.len() ==> lnos_are(#[trigger] stmts@[j], l),
            good ==> 0 <= k <= sts.len() && stmts@.len() == k && c.pos == line_start(b0, sts, k)
                && forall|j: int| 0 <= j < k ==> parsed_as(#[trigger] stmts@[j], sts[j]),
        ensures
            c.ok(),
            c.same_src(old(c)),
            c.pos >= old(c).pos,
            forall|j: int| 0 <= j < stmts@.len() ==> stmt_wf(#[trigger] stmts@[j]),
            old(c).lno matches Some(l) ==> forall|j: int| 0 <= j < stmts@.len() ==> lnos_are(#[trigger] stmts@[j], l),
            good ==> stmts@.len() == sts.len() && c.pos == q
                && forall|j: int| 0 <= j < sts.len() ==> parsed_as(#[trigger] stmts@[j], sts[j]),
        decreases c.src@.len() - c.pos,
    {
        proof {
            if good {
                lemma_body_line(s0, b0, sts, 0);
                if k < sts.len() {
                    lemma_body_line(s0, b0, sts, k);
                    lemma_stmt_start(s0, line_start(b0, sts, k), sts[k]);
                } else {
                    assert(blanks(s0, q, q));
                    reveal_strlit("END");
                    reveal_strlit("ELSE");
                    if keyword_at(s0, q, "END"@) {
                        assert(s0.subrange(q, q + 3)[0] == s0[q]);
                    }
                    if keyword_at(s0, q, "ELSE"@) {
                        assert(s0.subrange(q, q + 4)[0] == s0[q]);
                    }
                }
            }
        }
        c.skip_ws();
        assert(good ==> c.pos == line_start(b0, sts, k));
        if at_stop(c, stop_else) {
            break;
        }
        let st = match stmt(c, Ghost(sts[k])) {
            Ok(h) => h,
            Err(fl) => {
                return Err(fl);
            },
        };
        stmts.push(st);
        proof {
            if good {
                lemma_body_line(s0, b0, sts, k);
                if k + 1 < sts.len() {
                    lemma_body_line(s0, b0, sts, k + 1);
                    lemma_stmt_start(s0, line_start(b0, sts, k + 1), sts[k + 1]);
                } else {
                    reveal_strlit("END");
                    reveal_strlit("ELSE");
                    if keyword_at(s0, q, "END"@) {
                        assert(s0.subrange(q, q + 3)[0] == s0[q]);
                    }
                    if keyword_at(s0, q, "ELSE"@) {
                        assert(s0.subrange(q, q + 4)[0] == s0[q]);
                    }
                }
            }
            k = k + 1;
        }
        let sep = c.skip_seps();
        assert(good ==> sep && c.pos == line_start(b0, sts, k));
        if !sep {
            c.skip_ws();
            if at_stop(c, stop_else) {
                break;
            }
            return Err(c.fail("expected a line break or ;"));
        }
    }
    if stmts.len() == 0 {
        return Err(c.fail("expected a statement"));
    }
    Ok(Hir::Control(Control::Terms(stmts)))
}

/// One statement: `...`, a LOOP, a WHILE, an IF or an assignment.
#[verifier::rlimit(40)]
fn stmt(c: &mut Cursor, Ghost(st): Ghost<Stmt>) -> (r: Result<Hir, Fail>)
    requires
        old(c).ok(),
    ensures
        final(c).ok(),
        final(c).same_src(old(c)),
        final(c).pos >= old(c).pos,
        r is Ok ==> final(c).pos > old(c).pos,
        r matches Ok(h) ==> stmt_wf(h),
        old(c).lno matches Some(l) ==> (r matches Ok(h) ==> lnos_are(h, l)),
        stmt_line_at(old(c).src@, old(c).pos as int, st) ==> (r matches Ok(h) && parsed_as(h, st)
            && final(c).pos == old(c).pos + stmt_text(st).len()),
    decreases old(c).src@.len() - old(c).pos, 0nat,
{
    let ghost s0 = c.src@;
    let ghost p0 = c.pos as int;
    let ghost good = stmt_line_at(s0, p0, st);
    let ghost simple = good && st is Simple;
    let ghost lp = good && st is Loop;
    let ghost e = p0 + 5 + st->Loop_x.len();
    let ghost q = e + 4 + body_text(st->Loop_body).len();
    let ghost wh = good && st is While;
    let ghost ew = p0 + 6 + cond_text(st->While_cond).len();
    let ghost qw = ew + 4 + body_text(st->While_body).len();
    let ghost fi = good && st is If;
    let ghost ei = p0 + 3 + cond_text(st->If_cond).len();
    let ghost q1 = ei + 6 + body_text(st->If_then).len();
    let ghost q2 = if st->If_els.len() == 0 { q1 } else { q1 + 5 + body_text(st->If_els).len() };
    proof {
        reveal_strlit("...");
        reveal_strlit("LOOP");
        reveal_strlit("DO");
        reveal_strlit("END");
        if good {
            lemma_stmt_start(s0, p0, st);
        }
        if simple {
            lemma_head(s0, p0, st->Simple_0);
            lemma_no_keyword_at(s0, p0, st->Simple_0);
        }
        if good && st is Call {
            lemma_call_head(s0, p0, st);
            lemma_no_keyword_name(s0, p0, st->Call_x);
        }
        reveal_strlit("WHILE");
        reveal_strlit("IF");
        reveal_strlit("THEN");
        reveal_strlit("ELSE");
        if fi {
            lemma_if_head(s0, p0, st);
            assert(blanks(s0, q1, q1));
            assert(blanks(s0, q2, q2));
            if p0 + 3 <= s0.len() && s0.subrange(p0, p0 + 3) == "..."@ {
                assert(s0.subrange(p0, p0 + 3)[0] == s0[p0]);
            }
            if keyword_at(s0, p0, "LOOP"@) {
                assert(s0.subrange(p0, p0 + 4)[0] == s0[p0]);
            }
            if keyword_at(s0, p0, "WHILE"@) {
                assert(s0.subrange(p0, p0 + 5)[0] == s0[p0]);
            }
        }
        if wh {
            lemma_while_head(s0, p0, st);
            assert(blanks(s0, qw, qw));
            assert(s0.subrange(qw, qw + 3)[0] == s0[qw]);
            if p0 + 3 <= s0.len() && s0.subrange(p0, p0 + 3) == "..."@ {
                assert(s0.subrange(p0, p0 + 3)[0] == s0[p0]);
            }
            if keyword_at(s0, p0, "LOOP"@) {
                assert(s0.subrange(p0, p0 + 4)[0] == s0[p0]);
            }
        }
        if lp {
            lemma_loop_head(s0, p0, st);
            assert(blanks(s0, q, q));
            assert(s0.subrange(q, q + 3)[0] == s0[q]);
            if p0 + 3 <= s0.len() && s0.subrange(p0, p0 + 3) == "..."@ {
                assert(s0.subrange(p0, p0 + 3)[0] == s0[p0]);
            }
        }
    }
    c.skip_ws();
    assert(good ==> c.pos == p0);
    let start = c.line;
    if c.at_symbol("...") {
        c.skip("...".unicode_len());
        return Ok(Hir::NoOp);
    }
    if c.at_keyword("LOOP") {
        c.expect_keyword("LOOP")?;
        assert(lp ==> c.pos == p0 + 4);
        let ident = c.ident()?;
        assert(lp ==> c.pos == e && ident@ == SExpr::Ident(st->Loop_x));
        c.expect_keyword("DO")?;
        assert(lp ==> c.pos == e + 3 && block_at(s0, e + 3, st->Loop_body, false));
        let body = block(c, false, Ghost(st->Loop_body))?;
        assert(lp ==> c.pos == q);
        c.skip_seps();
        assert(lp ==> c.pos == q);
        c.expect_keyword("END")?;
        let lno = c.lno_from(start);
        let h = Hir::Control(Control::Loop { lno, ident: Box::new(Hir::Expr(ident)), terms: Box::new(body) });
        assert(lp ==> parsed_as(h, st));
        return Ok(h);
    }
    if c.at_keyword("WHILE") {
        c.expect_keyword("WHILE")?;
        assert(wh ==> c.pos == p0 + 5);
        let comp = c.comparison(Ghost(st->While_cond))?;
        assert(wh ==> c.pos == ew && comp@ == cond_expr(st->While_cond));
        c.expect_keyword("DO")?;
        assert(wh ==> c.pos == ew + 3 && block_at(s0, ew + 3, st->While_body, false));
        let body = block(c, false, Ghost(st->While_body))?;
        assert(wh ==> c.pos == qw);
        c.skip_seps();
        assert(wh ==> c.pos == qw);
        c.expect_keyword("END")?;
        let lno = c.lno_from(start);
        let h = Hir::Control(Control::While { lno, comp: Box::new(Hir::Expr(comp)), terms: Box::new(body) });
        assert(wh ==> parsed_as(h, st));
        return Ok(h);
    }
    if c.at_keyword("IF") {
        c.expect_keyword("IF")?;
        assert(fi ==> c.pos == p0 + 2);
        let comp = c.comparison(Ghost(st->If_cond))?;
        assert(fi ==> c.pos == ei && comp@ == cond_expr(st->If_cond));
        c.expect_keyword("THEN")?;
        assert(fi ==> c.pos == ei + 5 && block_at(s0, ei + 5, st->If_then, true));
        let if_terms = block(c, true, Ghost(st->If_then))?;
        assert(fi ==> c.pos == q1);
        c.skip_seps();
        assert(fi ==> c.pos == q1);
        let else_terms = if c.at_keyword("ELSE") {
            assert(fi ==> st->If_els.len() > 0);
            c.expect_keyword("ELSE")?;
            assert(fi ==> c.pos == q1 + 4 && block_at(s0, q1 + 4, st->If_els, false));
            let else_body = block(c, false, Ghost(st->If_els))?;
            assert(fi ==> c.pos == q2);
            c.skip_seps();
            Some(else_body)
        } else {
            None
        };
        assert(fi ==> c.pos == q2);
        c.expect_keyword("END")?;
        let lno = c.lno_from(start);
        let m = Macro::Conditional { lno, comp: Box::new(comp), if_terms: Box::new(if_terms), else_terms: Box::new(else_terms) };
        assert(macro_wf(m));
        assert(fi ==> parsed_as(Hir::Macro(m), st));
        return Ok(Hir::Macro(m));
    }
    assignment(c, start, Ghost(st->Simple_0), Ghost(st))
}

/// An assignment or a call after the target: `x := n`, `x := y`, `x := y op z`,
/// `x := y op n` or `x := f(args)`. A simple statement written out at the position is
/// read back as itself.
fn assignment(c: &mut Cursor, start: usize, Ghost(st): Ghost<Simple>, Ghost(cs): Ghost<Stmt>) -> (r: Result<Hir, Fail>)
    requires
        old(c).ok(),
    ensures
        final(c).ok(),
        final(c).same_src(old(c)),
        final(c).pos >= old(c).pos,
        r is Ok ==> final(c).pos > old(c).pos,
        r matches Ok(h) ==> stmt_wf(h),
        old(c).lno matches Some(l) ==> (r matches Ok(h) ==> lnos_are(h, l)),
        stmt_at(old(c).src@, old(c).pos as int, st) ==> (r matches Ok(h) && simple_of(h) == Some(st)
            && final(c).pos == line_end(old(c).pos as int, st)),
        stmt_line_at(old(c).src@, old(c).pos as int, cs) && cs is Call ==> (r matches Ok(h) && parsed_as(h, cs)
            && final(c).pos == old(c).pos + stmt_text(cs).len()),
{
    let ghost s0 = c.src@;
    let ghost p0 = c.pos as int;
    let ghost good = stmt_at(s0, p0, st);
    let ghost x = target_of(st);
    let ghost e = p0 + x.len();
    let ghost f = rhs_start(p0, st);
    let ghost le = line_end(p0, st);
    let ghost cg = stmt_line_at(s0, p0, cs) && cs is Call;
    let ghost ce = p0 + cs->Call_x.len();
    proof {
        if cg {
            lemma_call_head(s0, p0, cs);
        }
    }
    proof {
        reveal_strlit(":=");
        reveal_strlit("(");
        reveal_strlit("+");
        reveal_strlit("-");
        reveal_strlit("*");
    }
    assert(good ==> blanks(s0, p0, p0) && (spec_is_letter(s0[p0]) || s0[p0] == '_') && p0 < s0.len()
        && ident_end(s0, p0) == e && s0.subrange(p0, e) == x) by {
        if good {
            lemma_head(s0, p0, st);
        }
    }
    let lhs = match c.ident() {
        Ok(v) => v,
        Err(fl) => {
            return Err(fl);
        },
    };
    assert(good ==> lhs@ == SExpr::Ident(x) && c.pos == e);
    assert(cg ==> lhs@ == SExpr::Ident(cs->Call_x) && c.pos == ce);
    assert(good ==> blanks(s0, e, e + 1) && blank_stop(s0, e + 1) && e + 3 <= s0.len()
        && s0.subrange(e + 1, e + 3) == ":="@ && blanks(s0, e + 3, e + 4)) by {
        if good {
            lemma_head(s0, p0, st);
        }
    }
    match c.expect_symbol(":=") {
        Ok(_) => {},
        Err(fl) => {
            return Err(fl);
        },
    }
    assert(good ==> c.pos == e + 3);
    assert(cg ==> c.pos == ce + 3);
    assert(good ==> f == e + 4 && blank_stop(s0, f) && f < s0.len()
        && (st is Value <==> '0' <= s0[f] <= '9')) by {
        if good {
            lemma_head(s0, p0, st);
            if st is Value {
                lemma_rhs_value(s0, p0, st);
            } else if st is Copy {
                lemma_rhs_copy(s0, p0, st);
            } else {
                lemma_rhs_op(s0, p0, st);
            }
        }
    }
    c.skip_ws();
    assert(good ==> c.pos == f);
    assert(cg ==> c.pos == ce + 4);
    let first_is_digit = match c.peek() {
        Some(ch) => '0' <= ch && ch <= '9',
        None => false,
    };
    assert(good ==> (first_is_digit <==> st is Value));
    assert(cg ==> !first_is_digit);
    if first_is_digit {
        assign_value(c, start, lhs, Ghost(p0), Ghost(st))
    } else {
        assign_name(c, start, lhs, Ghost(p0), Ghost(st), Ghost(cs))
    }
}

/// The rest of `x := n`: the number.
fn assign_value(c: &mut Cursor, start: usize, lhs: Expr, Ghost(p0): Ghost<int>, Ghost(st): Ghost<Simple>) -> (r: Result<Hir, Fail>)
    requires
        old(c).ok(),
        lhs@ is Ident,
    ensures
        final(c).ok(),
        final(c).same_src(old(c)),
        final(c).pos >= old(c).pos,
        r is Ok ==> final(c).pos > old(c).pos,
        r matches Ok(h) ==> stmt_wf(h),
        old(c).lno matches Some(l) ==> (r matches Ok(h) ==> lnos_are(h, l)),
        stmt_at(old(c).src@, p0, st) && old(c).pos == rhs_start(p0, st) && lhs@ == SExpr::Ident(target_of(st))
            && st is Value ==> (r matches Ok(h) && simple_of(h) == Some(st) && final(c).pos == line_end(p0, st)),
{
    let ghost s0 = c.src@;
    let ghost good = stmt_at(s0, p0, st) && c.pos == rhs_start(p0, st) && lhs@ == SExpr::Ident(target_of(st)) && st is Value;
    let ghost x = target_of(st);
    let ghost f = rhs_start(p0, st);
    let ghost le = line_end(p0, st);
    proof {
        reveal_strlit("(");
        reveal_strlit("+");
        reveal_strlit("-");
        reveal_strlit("*");
    }
    proof {
        if good {
            lemma_rhs_value(s0, p0, st);
            assert(blanks(s0, f, f));
        }
    }
    let v = match c.value() {
        Ok(v) => v,
        Err(fl) => {
            return Err(fl);
        },
    };
    assert(good ==> v@ == SExpr::Num(st->Value_n) && c.pos == le);
    let lno = c.lno_from(start);
    let zero = match &v {
        Expr::NaturalNumber(n) => n.is_zero(),
        _ => false,
    };
    if zero {
        let m = Macro::AssignToZero { lno, lhs: Box::new(lhs) };
        assert(macro_wf(m));
        return Ok(Hir::Macro(m));
    }
    let m = Macro::AssignToValue { lno, lhs: Box::new(lhs), rhs: Box::new(v) };
    assert(macro_wf(m));
    return Ok(Hir::Macro(m));
}

/// The rest of `x := y`, `x := y op z`, `x := y op n` or `x := f(args)`: a name first.
fn assign_name(c: &mut Cursor, start: usize, lhs: Expr, Ghost(p0): Ghost<int>, Ghost(st): Ghost<Simple>,
    Ghost(cs): Ghost<Stmt>) -> (r: Result<Hir, Fail>)
    requires
        old(c).ok(),
        lhs@ is Ident,
    ensures
        final(c).ok(),
        final(c).same_src(old(c)),
        final(c).pos >= old(c).pos,
        r is Ok ==> final(c).pos > old(c).pos,
        r matches Ok(h) ==> stmt_wf(h),
        old(c).lno matches Some(l) ==> (r matches Ok(h) ==> lnos_are(h, l)),
        stmt_at(old(c).src@, p0, st) && old(c).pos == rhs_start(p0, st) && lhs@ == SExpr::Ident(target_of(st))
            && !(st is Value) ==> (r matches Ok(h) && simple_of(h) == Some(st) && final(c).pos == line_end(p0, st)),
        stmt_line_at(old(c).src@, p0, cs) && cs is Call && old(c).pos == p0 + cs->Call_x.len() + 4
            && lhs@ == SExpr::Ident(cs->Call_x) ==> (r matches Ok(h) && parsed_as(h, cs)
            && final(c).pos == p0 + stmt_text(cs).len()),
{
    let ghost s0 = c.src@;
    let ghost good = stmt_at(s0, p0, st) && c.pos == rhs_start(p0, st) && lhs@ == SExpr::Ident(target_of(st)) && !(st is Value);
    let ghost x = target_of(st);
    let ghost f = rhs_start(p0, st);
    let ghost le = line_end(p0, st);
    proof {
        reveal_strlit("(");
        reveal_strlit("+");
        reveal_strlit("-");
        reveal_strlit("*");
        assert("("@[0] == '(' && "+"@[0] == '+' && "-"@[0] == '-' && "*"@[0] == '*');
        if good {
            assert(blanks(s0, f, f));
            if st is Copy {
                lemma_rhs_copy(s0, p0, st);
                lemma_after(s0, p0, st);
                assert(blanks(s0, le, le));
            } else {
                lemma_rhs_op(s0, p0, st);
            }
        }
    }
    let ghost g = f + op_lhs(st).len();
    let ghost cg = stmt_line_at(s0, p0, cs) && cs is Call && c.pos == p0 + cs->Call_x.len() + 4
        && lhs@ == SExpr::Ident(cs->Call_x);
    let ghost cgp = p0 + cs->Call_x.len() + 4 + cs->Call_f.len();
    proof {
        if cg {
            lemma_call_head(s0, p0, cs);
            assert(blanks(s0, p0 + cs->Call_x.len() + 4, p0 + cs->Call_x.len() + 4));
            lemma_one(s0, cgp, "("@);
        }
    }
    let y = match c.ident() {
        Ok(v) => v,
        Err(fl) => {
            return Err(fl);
        },
    };
    assert(good && st is Copy ==> y@ == SExpr::Ident(st->Copy_y) && c.pos == le);
    assert(good && !(st is Copy) ==> y@ == SExpr::Ident(op_lhs(st)) && c.pos == g);
    c.skip_ws();
    assert(good && st is Copy ==> c.pos == le);
    assert(good && !(st is Copy) ==> c.pos == g + 1);
    assert(cg ==> y@ == SExpr::Ident(cs->Call_f) && c.pos == cgp);
    assert(good ==> c.pos < s0.len() ==> s0.subrange(c.pos as int, c.pos + 1)[0] == s0[c.pos as int]);
    if c.at_symbol("(") {
        assert(!good);
        return call(c, start, lhs, y, Ghost(cs->Call_args));
    }
    let ghost vt = operator_verb_text(op_verb(st));
    assert(good && !(st is Copy) ==> vt == "+"@ || vt == "-"@ || vt == "*"@);
    let verb = if c.at_symbol("+") {
        c.skip("+".unicode_len());
        Some(OperatorVerb::Plus)
    } else if c.at_symbol("-") {
        c.skip("-".unicode_len());
        Some(OperatorVerb::Minus)
    } else if c.at_symbol("*") {
        c.skip("*".unicode_len());
        Some(OperatorVerb::Multiply)
    } else {
        None
    };
    assert(good && st is Copy ==> verb is None && c.pos == le);
    assert(good && !(st is Copy) ==> verb == Some(op_verb(st)) && c.pos == g + 2);
    match verb {
        None => {
            let lno = c.lno_from(start);
            let m = Macro::AssignToIdent { lno, lhs: Box::new(lhs), rhs: Box::new(y) };
            assert(macro_wf(m));
            Ok(Hir::Macro(m))
        },
        Some(verb) => {
            let z = match c.atom() {
                Ok(v) => v,
                Err(fl) => {
                    return Err(fl);
                },
            };
            assert(good && st is Bin ==> z@ == SExpr::Ident(st->Bin_z) && c.pos == le);
            assert(good && st is Num ==> z@ == SExpr::Num(st->Num_n) && c.pos == le);
            let lno = c.lno_from(start);
            let z_is_num = match &z {
                Expr::NaturalNumber(_) => true,
                _ => false,
            };
            if !z_is_num {
                let m = Macro::AssignToIdentBinOpIdent { lno, lhs: Box::new(lhs), rhs: MacroAssign { lhs: Box::new(y), verb, rhs: Box::new(z) } };
                assert(macro_wf(m));
                Ok(Hir::Macro(m))
            } else if verb == OperatorVerb::Multiply {
                let m = Macro::AssignToIdentExtBinOpValue { lno, lhs: Box::new(lhs), rhs: MacroAssign { lhs: Box::new(y), verb, rhs: Box::new(z) } };
                assert(macro_wf(m));
                Ok(Hir::Macro(m))
            } else {
                let ghost lv = lhs@;
                let ghost yv = y@;
                let ghost zv = z@;
                let op = Expr::BinaryOp { lhs: Box::new(y), verb, rhs: Box::new(z) };
                assert(op@ == SExpr::BinaryOp { lhs: Box::new(yv), verb, rhs: Box::new(zv) });
                let a = Expr::Assign { lno, lhs: Box::new(lhs), rhs: Box::new(op) };
                assert(a@ == SExpr::Assign { lno, lhs: Box::new(lv), rhs: Box::new(op@) });
                Ok(Hir::Expr(a))
            }
        },
    }
}

/// The rest of a call `x := f(args)`, from `(` on. Arguments written as `args` in brackets
/// are read as themselves.
fn call(c: &mut Cursor, start: usize, lhs: Expr, y: Expr, Ghost(sides): Ghost<Seq<Side>>) -> (r: Result<Hir, Fail>)
    requires
        old(c).ok(),
        lhs@ is Ident,
        y@ is Ident,
    ensures
        final(c).ok(),
        final(c).same_src(old(c)),
        final(c).pos >= old(c).pos,
        r is Ok ==> final(c).pos > old(c).pos,
        r matches Ok(h) ==> stmt_wf(h),
        old(c).lno matches Some(l) ==> (r matches Ok(h) ==> lnos_are(h, l)),
        args_at(old(c).src@, old(c).pos as int, sides) ==> (r matches Ok(Hir::Function(Func::Call { lhs: l, rhs, .. }))
            && (*l)@ == lhs@ && (*rhs.ident)@ == y@ && rhs.args@.len() == sides.len()
            && (forall|i: int| 0 <= i < sides.len() ==> (#[trigger] rhs.args@[i])@ == side_expr(sides[i]))
            && final(c).pos == old(c).pos + paren_text(sides).len()),
{
    let ghost s0 = c.src@;
    let ghost p0 = c.pos as int;
    let ghost good = args_at(s0, p0, sides);
    let ghost n = sides.len() as int;
    let ghost mut k: int = 0;
    proof {
        reveal_strlit("(");
        reveal_strlit(")");
        reveal_strlit(",");
        reveal_strlit("()");
        if good {
            assert(blanks(s0, p0, p0));
            lemma_chars(s0, p0, paren_text(sides));
            assert(s0[p0 + 0] == paren_text(sides)[0]);
            lemma_one(s0, p0, "("@);
            if n == 0 {
                assert(paren_text(sides) =~= "()"@);
                assert(s0[p0 + 1] == paren_text(sides)[1]);
                assert(blanks(s0, p0 + 1, p0 + 1));
                lemma_one(s0, p0 + 1, ")"@);
            } else {
                lemma_args_parts(s0, p0, sides, 0);
                assert(sides.take(0) =~= Seq::<Side>::empty());
                lemma_one(s0, p0 + 1, ")"@);
            }
        }
    }
    c.expect_symbol("(")?;
    assert(good ==> c.pos == p0 + 1);
    let mut args: Vec<Expr> = Vec::new();
    c.skip_ws();
    assert(good ==> c.pos == p0 + 1);
    if !c.at_symbol(")") {
        loop
            invariant_except_break
                good ==> 0 <= k < n && args@.len() == k
                    && c.pos == (if k == 0 { p0 + 1 } else { args_end(p0, sides, k) + 1 })
                    && forall|j: int| 0 <= j < k ==> (#[trigger] args@[j])@ == side_expr(sides[j]),
            invariant
                c.ok(),
                c.same_src(old(c)),
                c.pos > old(c).pos,
                s0 == c.src@,
                p0 == old(c).pos,
                good == args_at(s0, p0, sides),
                n == sides.len(),
                forall|j: int| 0 <= j < args@.len() ==> is_atom(#[trigger] args@[j]),
            ensures
                c.ok(),
                c.same_src(old(c)),
                c.pos > old(c).pos,
                forall|j: int| 0 <= j < args@.len() ==> is_atom(#[trigger] args@[j]),
                good ==> args@.len() == n && c.pos == args_end(p0, sides, n)
                    && forall|j: int| 0 <= j < n ==> (#[trigger] args@[j])@ == side_expr(sides[j]),
            decreases c.src@.len() - c.pos,
        {
            proof {
                reveal_strlit(",");
                if good {
                    lemma_args_parts(s0, p0, sides, k);
                    if k + 1 < n {
                        lemma_one(s0, args_end(p0, sides, k + 1), ","@);
                        assert(blanks(s0, args_end(p0, sides, k + 1), args_end(p0, sides, k + 1)));
                    } else {
                        lemma_one(s0, args_end(p0, sides, k + 1), ","@);
                    }
                }
            }
            let a = c.atom()?;
            assert(good ==> a@ == side_expr(sides[k]) && c.pos == args_end(p0, sides, k + 1)) by {
                if good {
                    lemma_args_parts(s0, p0, sides, k);
                    if sides[k] is Name {
                    } else {
                    }
                }
            }
            args.push(a);
            c.skip_ws();
            assert(good ==> c.pos == args_end(p0, sides, k + 1));
            if c.at_symbol(",") {
                c.expect_symbol(",")?;
                proof {
                    k = k + 1;
                }
            } else {
                proof {
                    if good {
                        assert(k + 1 == n);
                        assert(sides.take(n) =~= sides);
                    }
                    k = k + 1;
                }
                break;
            }
        }
    }
    proof {
        if good {
            assert(sides.take(n) =~= sides);
            assert(paren_text(sides).len() == args_text(sides).len() + 2);
            let e = p0 + 1 + args_text(sides).len();
            assert(blanks(s0, e, e));
            if n > 0 {
                lemma_args_parts(s0, p0, sides, n - 1);
            } else {
                assert(args_text(sides) =~= Seq::<char>::empty());
            }
            lemma_one(s0, e, ")"@);
        }
    }
    c.expect_symbol(")")?;
    let lno = c.lno_from(start);
    let ghost lv = lhs@;
    let ghost yv = y@;
    let f = Func::Call { lno, lhs: Box::new(lhs), rhs: FuncCall { ident: Box::new(y), args } };
    assert(func_wf(f));
    Ok(Hir::Function(f))
}

/// The bracketed parameters of a declaration. Parameters written as `ps` in brackets are
/// read as themselves.
fn params(c: &mut Cursor, Ghost(ps): Ghost<Seq<Seq<char>>>) -> (r: Result<Vec<Expr>, Fail>)
    requires
        old(c).ok(),
    ensures
        final(c).ok(),
        final(c).same_src(old(c)),
        final(c).pos >= old(c).pos,
        r matches Ok(v) ==> forall|k: int| 0 <= k < v@.len() ==> is_ident(#[trigger] v@[k]),
        args_at(old(c).src@, old(c).pos as int, names_as_sides(ps)) ==> (r matches Ok(v) && v@.len() == ps.len()
            && (forall|i: int| 0 <= i < ps.len() ==> (#[trigger] v@[i])@ == SExpr::Ident(ps[i]))
            && final(c).pos == old(c).pos + paren_text(names_as_sides(ps)).len()),
{
    let ghost sides = names_as_sides(ps);
    let ghost s0 = c.src@;
    let ghost p0 = c.pos as int;
    let ghost good = args_at(s0, p0, sides);
    let ghost n = sides.len() as int;
    let ghost mut k: int = 0;
    proof {
        reveal_strlit("(");
        reveal_strlit(")");
        reveal_strlit(",");
        reveal_strlit("()");
        if good {
            assert(blanks(s0, p0, p0));
            lemma_chars(s0, p0, paren_text(sides));
            assert(s0[p0 + 0] == paren_text(sides)[0]);
            lemma_one(s0, p0, "("@);
            if n == 0 {
                assert(paren_text(sides) =~= "()"@);
                assert(s0[p0 + 1] == paren_text(sides)[1]);
                assert(blanks(s0, p0 + 1, p0 + 1));
                lemma_one(s0, p0 + 1, ")"@);
            } else {
                lemma_args_parts(s0, p0, sides, 0);
                assert(sides.take(0) =~= Seq::<Side>::empty());
                lemma_one(s0, p0 + 1, ")"@);
            }
        }
    }
    c.expect_symbol("(")?;
    assert(good ==> c.pos == p0 + 1);
    let mut params: Vec<Expr> = Vec::new();
    c.skip_ws();
    assert(good ==> c.pos == p0 + 1);
    if !c.at_symbol(")") {
        loop
            invariant_except_break
                good ==> 0 <= k < n && params@.len() == k
                    && c.pos == (if k == 0 { p0 + 1 } else { args_end(p0, sides, k) + 1 })
                    && forall|j: int| 0 <= j < k ==> (#[trigger] params@[j])@ == SExpr::Ident(ps[j]),
            invariant
                c.ok(),
                c.same_src(old(c)),
                c.pos >= old(c).pos,
                s0 == c.src@,
                p0 == old(c).pos,
                good == args_at(s0, p0, sides),
                sides == names_as_sides(ps),
                n == sides.len(),
                forall|j: int| 0 <= j < params@.len() ==> is_ident(#[trigger] params@[j]),
            ensures
                c.ok(),
                c.same_src(old(c)),
                c.pos >= old(c).pos,
                forall|j: int| 0 <= j < params@.len() ==> is_ident(#[trigger] params@[j]),
                good ==> params@.len() == n && c.pos == args_end(p0, sides, n)
                    && forall|j: int| 0 <= j < n ==> (#[trigger] params@[j])@ == SExpr::Ident(ps[j]),
            decreases c.src@.len() - c.pos,
        {
            proof {
                reveal_strlit(",");
                if good {
                    lemma_args_parts(s0, p0, sides, k);
                    lemma_one(s0, args_end(p0, sides, k + 1), ","@);
                    assert(sides[k] == Side::Name(ps[k]));
                }
            }
            let a = c.ident()?;
            assert(good ==> a@ == SExpr::Ident(ps[k]) && c.pos == args_end(p0, sides, k + 1));
            params.push(a);
            c.skip_ws();
            assert(good ==> c.pos == args_end(p0, sides, k + 1));
            if c.at_symbol(",") {
                c.expect_symbol(",")?;
                proof {
                    k = k + 1;
                }
            } else {
                proof {
                    if good {
                        assert(k + 1 == n);
                        assert(sides.take(n) =~= sides);
                    }
                    k = k + 1;
                }
                break;
            }
        }
    }
    proof {
        if good {
            assert(sides.take(n) =~= sides);
            assert(paren_text(sides).len() == args_text(sides).len() + 2);
            let e = p0 + 1 + args_text(sides).len();
            assert(blanks(s0, e, e));
            if n > 0 {
                lemma_args_parts(s0, p0, sides, n - 1);
            } else {
                assert(args_text(sides) =~= Seq::<char>::empty());
            }
            lemma_one(s0, e, ")"@);
        }
    }
    c.expect_symbol(")")?;
    Ok(params)
}

/// `FN name(params) -> ret DECL statements END`. A declaration written out at the
/// position is read back as itself.
fn func_def(c: &mut Cursor, Ghost(d): Ghost<Decl>) -> (r: Result<FuncDecl, Fail>)
    requires
        old(c).ok(),
    ensures
        final(c).ok(),
        final(c).same_src(old(c)),
        final(c).pos >= old(c).pos,
        r matches Ok(fd) ==> decl_wf(fd),
        old(c).lno matches Some(l) ==> (r matches Ok(fd) ==> fd.lno == l && lnos_are(*fd.terms, l)),
        decl_line_at(old(c).src@, old(c).pos as int, d) ==> (r matches Ok(fd) && decl_parsed(fd, d)
            && final(c).pos == old(c).pos + decl_text(d).len()),
{
    let ghost s0 = c.src@;
    let ghost p0 = c.pos as int;
    let ghost good = decl_line_at(s0, p0, d);
    let ghost g = p0 + 3 + d.name.len();
    let ghost h = g + paren_text(names_as_sides(d.params)).len();
    let ghost re = h + 4 + d.ret.len();
    let ghost q = re + 6 + body_text(d.body).len();
    proof {
        reveal_strlit("FN");
        reveal_strlit("->");
        reveal_strlit("DECL");
        reveal_strlit("END");
        if good {
            lemma_decl_head(s0, p0, d);
            assert(blanks(s0, q, q));
        }
    }
    c.skip_ws();
    assert(good ==> c.pos == p0);
    let start = c.line;
    c.expect_keyword("FN")?;
    assert(good ==> c.pos == p0 + 2);
    let ident = c.ident()?;
    assert(good ==> c.pos == g && ident@ == SExpr::Ident(d.name));
    let params = params(c, Ghost(d.params))?;
    assert(good ==> c.pos == h);
    c.expect_symbol("->")?;
    assert(good ==> c.pos == h + 3);
    let ret = c.ident()?;
    assert(good ==> c.pos == re && ret@ == SExpr::Ident(d.ret));
    c.expect_keyword("DECL")?;
    assert(good ==> c.pos == re + 5);
    let terms = block(c, false, Ghost(d.body))?;
    assert(good ==> c.pos == q);
    c.skip_seps();
    assert(good ==> c.pos == q);
    c.expect_keyword("END")?;
    let lno = c.lno_from(start);
    Ok(FuncDecl { lno, ident: Box::new(ident), params, ret: Box::new(ret), terms: Box::new(terms) })
}

/// `name` or `name AS alias`.
fn import_func(c: &mut Cursor, Ghost(it): Ghost<Item>, Ghost(q): Ghost<int>) -> (r: Result<ImpFunc, Fail>)
    requires
        old(c).ok(),
    ensures
        final(c).ok(),
        final(c).same_src(old(c)),
        final(c).pos >= old(c).pos,
        r is Ok ==> final(c).pos > old(c).pos,
        r matches Ok(f) ==> imp_func_wf(f),
        item_at(old(c).src@, old(c).pos as int, q, it) ==> (r matches Ok(f) && item_parsed(f, it)
            && final(c).pos == q + item_text(it).len()),
{
    let ghost s0 = c.src@;
    let ghost p0 = c.pos as int;
    let ghost good = item_at(s0, p0, q, it);
    let ghost e = q + it.name.len();
    proof {
        reveal_strlit("AS");
        reveal_strlit("as");
        if good {
            lemma_item(s0, p0, q, it);
        }
    }
    let ident = c.ident()?;
    assert(good ==> ident@ == SExpr::Ident(it.name) && c.pos == e);
    c.skip_ws();
    assert(good && it.alias is None ==> c.pos == e);
    assert(good && it.alias is Some ==> c.pos == e + 1);
    if c.at_keyword("AS") || c.at_keyword("as") {
        if c.at_keyword("AS") {
            c.expect_keyword("AS")?;
        } else {
            c.expect_keyword("as")?;
        }
        assert(good ==> it.alias is Some && c.pos == e + 3);
        let alias = c.ident()?;
        Ok(ImpFunc { ident: Box::new(ident), alias: Some(Box::new(alias)) })
    } else {
        Ok(ImpFunc { ident: Box::new(ident), alias: None })
    }
}

/// `FROM path IMPORT *`, `FROM path IMPORT f` or `FROM path IMPORT (f, g AS h, ...)`. An
/// import `im` written out at the position, with a line break after it, is read back as
/// itself.
fn import(c: &mut Cursor, Ghost(im): Ghost<Import>) -> (r: Result<Imp, Fail>)
    requires
        old(c).ok(),
    ensures
        final(c).ok(),
        final(c).same_src(old(c)),
        final(c).pos >= old(c).pos,
        r matches Ok(i) ==> imp_wf(i),
        old(c).lno matches Some(l) ==> (r matches Ok(i) ==> i.lno == l),
        import_line_at(old(c).src@, old(c).pos as int, im) && old(c).pos + import_text(im).len() < old(c).src@.len()
            ==> (r matches Ok(i) && import_parsed(i, im) && final(c).pos == old(c).pos + import_text(im).len()),
{
    let ghost s0 = c.src@;
    let ghost p0 = c.pos as int;
    let ghost good = import_line_at(s0, p0, im) && p0 + import_text(im).len() < s0.len();
    let ghost ts = part_texts(im.path);
    let ghost n = im.path.len() as int;
    let ghost jt = joined(ts, "::"@);
    let ghost e = p0 + 5 + jt.len();
    let ghost t = e + 8;
    let ghost mut k: int = 0;
    proof {
        reveal_strlit("FROM");
        reveal_strlit("IMPORT");
        if good {
            lemma_import_head(s0, p0, im);
            lemma_import_items(s0, t, im.items);
        }
    }
    c.skip_ws();
    assert(good ==> c.pos == p0);
    let start = c.line;
    c.expect_keyword("FROM")?;
    assert(good ==> c.pos == p0 + 4);
    let mut path: Vec<Expr> = Vec::new();
    loop
        invariant_except_break
            good ==> 0 <= k < n && path@.len() == k
                && c.pos == (if k == 0 { p0 + 4 } else { joined_end(p0 + 5, ts, "::"@, k) + 2 })
                && forall|j: int| 0 <= j < k ==> (#[trigger] path@[j])@ == SExpr::Ident(ts[j]),
        invariant
            c.ok(),
            c.same_src(old(c)),
            c.pos >= old(c).pos,
            s0 == c.src@,
            p0 == old(c).pos,
            good == (import_line_at(s0, p0, im) && p0 + import_text(im).len() < s0.len()),
            ts == part_texts(im.path),
            n == im.path.len(),
            jt == joined(ts, "::"@),
            e == p0 + 5 + jt.len(),
            good ==> 0 < n && 0 <= p0 && s0.subrange(p0 + 5, e) == jt && is_blank(s0[p0 + 4]) && e + 1 < s0.len()
                && s0[e] == ' ' && s0[e + 1] == 'I' && blank_stop(s0, e + 1)
                && forall|j: int| 0 <= j < n ==> part_ok(#[trigger] im.path[j]),
            forall|j: int| 0 <= j < path@.len() ==> is_ident(#[trigger] path@[j]),
        ensures
            c.ok(),
            c.same_src(old(c)),
            c.pos >= old(c).pos,
            forall|j: int| 0 <= j < path@.len() ==> is_ident(#[trigger] path@[j]),
            good ==> path@.len() == n && c.pos == e + 1
                && forall|j: int| 0 <= j < n ==> (#[trigger] path@[j])@ == SExpr::Ident(ts[j]),
        decreases c.src@.len() - c.pos,
    {
        let ghost b = joined_end(p0 + 5, ts, "::"@, k);
        let ghost f = if k == 0 { p0 + 5 } else { b + 2 };
        let ghost a = joined_end(p0 + 5, ts, "::"@, k + 1);
        proof {
            reveal_strlit("::");
            if good {
                lemma_joined_parts(s0, p0 + 5, ts, "::"@, k);
                assert(ts[k] == part_text(im.path[k]));
                assert(part_ok(im.path[k]));
                if k + 1 < n {
                    lemma_two(s0, a, "::"@);
                }
                assert(blanks(s0, c.pos as int, f));
                assert(part_at(s0, c.pos as int, f, im.path[k]));
            }
        }
        let part = c.path_part(Ghost(im.path[k]), Ghost(f))?;
        assert(good ==> c.pos == a && part@ == SExpr::Ident(ts[k]));
        path.push(part);
        proof {
            if good {
                if k + 1 < n {
                    assert(blanks(s0, a, a));
                } else {
                    assert(blanks(s0, a, a + 1));
                    assert(e + 3 <= s0.len() ==> s0.subrange(e + 1, e + 3)[0] == s0[e + 1]);
                }
            }
        }
        c.skip_ws();
        assert(good ==> c.pos == (if k + 1 < n { a } else { e + 1 }));
        if c.at_symbol("::") {
            c.expect_symbol("::")?;
            proof {
                k = k + 1;
            }
        } else {
            proof {
                if good {
                    assert(k + 1 == n);
                }
                k = k + 1;
            }
            break;
        }
    }
    proof {
        reveal_strlit("IMPORT");
        if good {
            lemma_import_head(s0, p0, im);
            lemma_import_items(s0, t, im.items);
        }
    }
    c.expect_keyword("IMPORT")?;
    assert(good ==> c.pos == e + 7);
    proof {
        if good {
            assert(blanks(s0, e + 7, t));
        }
    }
    c.skip_ws();
    assert(good ==> c.pos == t);
    let ghost gm = good && im.items is Many;
    let ghost v = im.items->Many_0;
    let ghost its = item_texts(v);
    let ghost m = v.len() as int;
    let ghost bb = t + 1;
    let ghost mut k2: int = 0;
    proof {
        reveal_strlit("*");
        reveal_strlit("(");
        reveal_strlit(")");
        reveal_strlit(",");
    }
    let funcs = if c.at_symbol("*") {
        c.expect_symbol("*")?;
        ImpFuncs::Wildcard(ImpWildcard {})
    } else if c.at_symbol("(") {
        c.expect_symbol("(")?;
        assert(good ==> gm && c.pos == bb);
        let mut fs: Vec<ImpFunc> = Vec::new();
        loop
            invariant_except_break
                gm ==> 0 <= k2 < m && fs@.len() == k2
                    && c.pos == (if k2 == 0 { bb } else { joined_end(bb, its, ", "@, k2) + 1 })
                    && forall|j: int| 0 <= j < k2 ==> item_parsed(#[trigger] fs@[j], v[j]),
            invariant
                c.ok(),
                c.same_src(old(c)),
                c.pos >= old(c).pos,
                s0 == c.src@,
                p0 == old(c).pos,
                gm == (import_line_at(s0, p0, im) && p0 + import_text(im).len() < s0.len()),
                gm ==> im.items is Many,
                v == im.items->Many_0,
                its == item_texts(v),
                m == v.len(),
                gm ==> 0 < m && 0 <= bb && bb + joined(its, ", "@).len() < s0.len()
                    && s0.subrange(bb, bb + joined(its, ", "@).len()) == joined(its, ", "@)
                    && s0[bb + joined(its, ", "@).len()] == ')'
                    && forall|j: int| 0 <= j < m ==> item_ok(#[trigger] v[j]),
                forall|j: int| 0 <= j < fs@.len() ==> imp_func_wf(#[trigger] fs@[j]),
            ensures
                c.ok(),
                c.same_src(old(c)),
                c.pos >= old(c).pos,
                forall|j: int| 0 <= j < fs@.len() ==> imp_func_wf(#[trigger] fs@[j]),
                gm ==> fs@.len() == m && c.pos == bb + joined(its, ", "@).len()
                    && forall|j: int| 0 <= j < m ==> item_parsed(#[trigger] fs@[j], v[j]),
            decreases c.src@.len() - c.pos,
        {
            let ghost b = joined_end(bb, its, ", "@, k2);
            let ghost q = if k2 == 0 { bb } else { b + 2 };
            let ghost a = joined_end(bb, its, ", "@, k2 + 1);
            proof {
                reveal_strlit(", ");
                if gm {
                    lemma_joined_parts(s0, bb, its, ", "@, k2);
                    assert(its[k2] == item_text(v[k2]));
                    assert(item_ok(v[k2]));
                    if k2 > 0 {
                        assert(s0.subrange(b, b + 2)[1] == s0[b + 1]);
                    }
                    if k2 + 1 < m {
                        assert(s0.subrange(a, a + 2)[0] == s0[a]);
                    }
                    assert(blanks(s0, c.pos as int, q));
                    assert(item_at(s0, c.pos as int, q, v[k2]));
                }
            }
            let f = import_func(c, Ghost(v[k2]), Ghost(q))?;
            assert(gm ==> c.pos == a && item_parsed(f, v[k2]));
            fs.push(f);
            proof {
                reveal_strlit(",");
                if gm {
                    assert(blanks(s0, a, a));
                    lemma_one(s0, a, ","@);
                }
            }
            c.skip_ws();
            assert(gm ==> c.pos == a);
            if c.at_symbol(",") {
                c.expect_symbol(",")?;
                proof {
                    k2 = k2 + 1;
                }
            } else {
                proof {
                    if gm {
                        assert(k2 + 1 == m);
                    }
                    k2 = k2 + 1;
                }
                break;
            }
        }
        proof {
            reveal_strlit(")");
            if gm {
                let z = bb + joined(its, ", "@).len();
                assert(blanks(s0, z, z));
                lemma_one(s0, z, ")"@);
            }
        }
        c.expect_symbol(")")?;
        ImpFuncs::Funcs(fs)
    } else {
        let f = import_func(c, Ghost(im.items->One_0), Ghost(t))?;
        let mut fs: Vec<ImpFunc> = Vec::new();
        fs.push(f);
        ImpFuncs::Funcs(fs)
    };
    let lno = c.lno_from(start);
    let i = Imp { lno, path, funcs };
    proof {
        if good {
            assert forall|j: int| 0 <= j < n implies (#[trigger] i.path@[j])@ == SExpr::Ident(part_text(im.path[j])) by {
                assert(ts[j] == part_text(im.path[j]));
            }
        }
    }
    Ok(i)
}

/// After an import or a declaration: a line break, `;` or the end.
fn end_of_item(c: &mut Cursor) -> (r: Result<(), Fail>)
    requires
        old(c).ok(),
    ensures
        final(c).ok(),
        final(c).same_src(old(c)),
        final(c).pos >= old(c).pos,
        old(c).pos < old(c).src@.len() && old(c).src@[old(c).pos as int] == '\n'
            && (old(c).pos + 1 == old(c).src@.len() || plain_char(old(c).src@[old(c).pos + 1]))
            ==> r is Ok && final(c).pos == old(c).pos + 1,
{
    let sep = c.skip_seps();
    if sep || c.at_end() {
        Ok(())
    } else {
        Err(c.fail("expected a line break or ;"))
    }
}

/// A module: imports, then function declarations, then statements.
fn module(c: &mut Cursor, Ghost(ds): Ghost<Seq<Decl>>, Ghost(sts): Ghost<Seq<Stmt>>) -> (r: Result<Module, Fail>)
    requires
        old(c).ok(),
    ensures
        r matches Ok(m) ==> module_wf(m),
        blank_from(old(c).src@, old(c).pos as int) ==> (r matches Ok(m) && m.imp@.len() == 0
            && m.decl@.len() == 0 && m.code == Hir::NoOp),
        old(c).lno matches Some(l) ==> (r matches Ok(m) ==> module_lnos_are(m, l)),
        module_at(old(c).src@, old(c).pos as int, ds, sts) ==> (r matches Ok(m) && m.imp@.len() == 0
            && m.decl@.len() == ds.len() && (forall|i: int| 0 <= i < ds.len() ==> decl_parsed(#[trigger] m.decl@[i], ds[i]))
            && code_parsed(m.code, sts)),
{
    let ghost s0 = c.src@;
    let ghost p0 = c.pos as int;
    let ghost good = module_at(s0, p0, ds, sts);
    let ghost pd = p0 + decls_text(ds).len();
    let ghost mut j: int = 0;
    proof {
        if good {
            lemma_module_parts(s0, p0, ds, sts, 0);
        }
    }
    let ghost empty = blank_from(old(c).src@, old(c).pos as int);
    let mut imp: Vec<Imp> = Vec::new();
    let mut decl: Vec<FuncDecl> = Vec::new();
    c.skip_seps();
    assert(good ==> c.pos == p0);
    loop
        invariant
            c.ok(),
            forall|k: int| 0 <= k < imp@.len() ==> imp_wf(#[trigger] imp@[k]),
            empty == blank_from(old(c).src@, old(c).pos as int),
            empty ==> c.pos == c.src@.len() && imp@.len() == 0,
            s0 == c.src@,
            s0 == old(c).src@,
            p0 == old(c).pos,
            good == module_at(s0, p0, ds, sts),
            good ==> c.pos == p0 && imp@.len() == 0 && item_start(s0, p0),
            c.lno == old(c).lno,
            old(c).lno matches Some(l) ==> forall|k: int| 0 <= k < imp@.len() ==> (#[trigger] imp@[k]).lno == l,
        decreases c.src@.len() - c.pos,
    {
        c.skip_ws();
        proof {
            reveal_strlit("FROM");
            assert("FROM"@.len() == 4);
        }
        assert(good ==> c.pos == p0);
        if !c.at_keyword("FROM") {
            break;
        }
        assert(!good);

        let item_start = c.pos;
        let i = import(c, Ghost(arbitrary()))?;
        imp.push(i);
        end_of_item(c)?;
        if c.pos == item_start {
            return Err(c.fail("expected an import"));
        }
    }
    loop
        invariant
            c.ok(),
            forall|k: int| 0 <= k < decl@.len() ==> decl_wf(#[trigger] decl@[k]),
            empty == blank_from(old(c).src@, old(c).pos as int),
            empty ==> c.pos == c.src@.len() && decl@.len() == 0 && imp@.len() == 0,
            s0 == c.src@,
            s0 == old(c).src@,
            p0 == old(c).pos,
            good == module_at(s0, p0, ds, sts),
            pd == p0 + decls_text(ds).len(),
            good ==> 0 <= j <= ds.len() && c.pos == decl_start(p0, ds, j) && imp@.len() == 0 && decl@.len() == j
                && forall|i: int| 0 <= i < j ==> decl_parsed(#[trigger] decl@[i], ds[i]),
            c.lno == old(c).lno,
            old(c).lno matches Some(l) ==> forall|k: int| 0 <= k < imp@.len() ==> (#[trigger] imp@[k]).lno == l,
            old(c).lno matches Some(l) ==> forall|k: int| 0 <= k < decl@.len() ==> (#[trigger] decl@[k]).lno == l
                && lnos_are(*decl@[k].terms, l),
        ensures
            c.ok(),
            forall|k: int| 0 <= k < decl@.len() ==> decl_wf(#[trigger] decl@[k]),
            empty ==> c.pos == c.src@.len() && decl@.len() == 0 && imp@.len() == 0,
            s0 == c.src@,
            good ==> j == ds.len() && c.pos == decl_start(p0, ds, j) && imp@.len() == 0 && decl@.len() == j
                && forall|i: int| 0 <= i < j ==> decl_parsed(#[trigger] decl@[i], ds[i]),
            c.lno == old(c).lno,
            old(c).lno matches Some(l) ==> forall|k: int| 0 <= k < imp@.len() ==> (#[trigger] imp@[k]).lno == l,
            old(c).lno matches Some(l) ==> forall|k: int| 0 <= k < decl@.len() ==> (#[trigger] decl@[k]).lno == l
                && lnos_are(*decl@[k].terms, l),
        decreases c.src@.len() - c.pos,
    {
        proof {
            reveal_strlit("FN");
            assert("FN"@.len() == 2);
            if good {
                lemma_module_parts(s0, p0, ds, sts, j);
                if j < ds.len() {
                    lemma_decl_head(s0, decl_start(p0, ds, j), ds[j]);
                    lemma_module_parts(s0, p0, ds, sts, j + 1);
                } else if sts.len() > 0 {
                    lemma_body_line(s0, pd, sts, 0);
                    lemma_stmt_start(s0, pd, sts[0]);
                }
            }
        }
        c.skip_ws();
        assert(good ==> c.pos == decl_start(p0, ds, j));
        if !c.at_keyword("FN") {
            break;
        }
        assert(good ==> j < ds.len());
        let item_start = c.pos;
        let d = func_def(c, Ghost(ds[j]))?;
        decl.push(d);
        end_of_item(c)?;
        proof {
            j = j + 1;
        }
        assert(good ==> c.pos == decl_start(p0, ds, j));
        if c.pos == item_start {
            return Err(c.fail("expected a function"));
        }
    }
    proof {
        if good {
            lemma_module_parts(s0, p0, ds, sts, ds.len() as int);
            assert(j == ds.len());
            if sts.len() > 0 {
                lemma_body_line(s0, pd, sts, 0);
                lemma_stmt_start(s0, pd, sts[0]);
            }
        }
    }
    c.skip_seps();
    assert(good ==> c.pos == pd);
    let code = if c.at_end() {
        assert(good ==> sts.len() == 0);
        Hir::NoOp
    } else {
        assert(good ==> sts.len() > 0 && c.pos == pd && block_at(s0, pd, sts, false));
        let b = match block(c, false, Ghost(sts)) {
            Ok(b) => b,
            Err(fl) => {
                return Err(fl);
            },
        };
        c.skip_seps();
        if !c.at_end() {
            return Err(c.fail("expected the end of the source"));
        }
        b
    };
    assert(good ==> code_parsed(code, sts));
    Ok(Module { imp, decl, code })
}

impl LoopParser {
    /// Parses a source into a module, or reports where and why it could not. With
    /// `settings.lno`, every statement gets that line number.
    pub fn parse(source: &str, settings: &ParseSettings) -> (r: Result<Module, Error>)
        ensures
            r matches Ok(m) ==> module_wf(m),
            r matches Err(e) ==> e.variant is Parse,
            blank(source@) && source@.len() < usize::MAX ==> (r matches Ok(m) && m.imp@.len() == 0
                && m.decl@.len() == 0 && m.code == Hir::NoOp),
            settings.lno matches Some(l) ==> (r matches Ok(m) ==> module_lnos_are(m, l)),
            (exists|ds: Seq<Decl>, sts: Seq<Stmt>| module_ok(ds, sts) && module_text(ds, sts) == source@)
                && source@.len() < usize::MAX ==> (r matches Ok(m) && m.imp@.len() == 0
                && exists|ds: Seq<Decl>, sts: Seq<Stmt>| #[trigger] module_text(ds, sts) == source@
                && module_parsed(m, ds, sts)),
    {
        let ghost pair = choose|ds: Seq<Decl>, sts: Seq<Stmt>| module_ok(ds, sts) && module_text(ds, sts) == source@;
        let ghost ds = pair.0;
        let ghost sts = pair.1;
        let src = chars_of(source);
        if src.len() >= usize::MAX {
            return Err(Error::new_from_parse(0, 0, 0, String::from_str("source too long")));
        }
        let mut c = Cursor { text: String::from_str(source), src, pos: 0, line: 1, line_start: 0, lno: settings.lno };
        proof {
            if module_ok(ds, sts) && module_text(ds, sts) == source@ {
                assert(c.src@.subrange(0, c.src@.len() as int) =~= c.src@);
            }
        }
        match module(&mut c, Ghost(ds), Ghost(sts)) {
            Ok(m) => {
                proof {
                    if module_ok(ds, sts) && module_text(ds, sts) == source@ {
                        assert(module_parsed(m, ds, sts));
                    }
                }
                Ok(m)
            },
            Err(f) => Err(Error::new_from_parse(f.line, f.col, f.pos, f.message)),
        }
    }

}

/// The characters of `s`.
fn chars_of(s: &str) -> (r: Vec<char>)
    ensures
        r@ == s@,
{
    broadcast use vstd::string::axiom_spec_iter;
    let mut v: Vec<char> = Vec::new();
    for c in iter: s.chars()
        invariant
            v@ == iter.seq().take(iter.index() as int),
    {
        v.push(c);
    }
    v
}

fn is_letter(c: char) -> (r: bool)
    ensures
        r == spec_is_letter(c),
{
    ('a' <= c && c <= 'z') || ('A' <= c && c <= 'Z')
}

fn is_ident_char(c: char) -> (r: bool)
    ensures
        r == spec_is_ident_char(c),
{
    is_letter(c) || ('0' <= c && c <= '9') || c == '_'
}

} // verus!
