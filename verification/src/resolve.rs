use vstd::prelude::*;
use crate::expr::{Expr, SExpr, clone_expr, clone_exprs, views, LineNo};
use crate::hir::{Hir, Imp, ImpFunc, ImpFuncs, ImpWildcard, Module, FuncDecl, is_ident};
use crate::parser::{LoopParser, ParseSettings, module_wf, imp_wf, imp_func_wf, Decl, Stmt, module_ok, module_text, decl_parsed, module_parsed};
use crate::modctx::{ModuleContext, FuncContext, FuncImport, func_ctx_wf, decl_wf, copy_decl_wf, ctx_keys, ctx_extends, ctx_first,
    same_fc, lemma_same_fc_trans, lemma_extends_trans};
use crate::modmap::{ModuleMap, map_first, map_has, lemma_map_give, lemma_map_keep, lemma_map_first_unique};
use crate::names::{ModuleName, FuncName, str_views, join, join_spec, clone_strings};
use crate::fs::{Directory, flat_files};
use crate::errors::{Error, ErrorCode, ErrorVariant, StdResult, PestErrorInfo};
use crate::flags::CompileFlags;

verus! {

broadcast use vstd::std_specs::vec::axiom_vec_index_decreases;

/// The modules of a compilation, by path, each without its statements (but the main one).
pub open spec fn mods_wf(ms: Seq<(Vec<String>, Module)>) -> bool {
    forall|i: int| 0 <= i < ms.len() ==> module_wf(#[trigger] ms[i].1)
}

/// A module that neither imports nor declares a function.
pub open spec fn bare(m: Module) -> bool {
    m.imp@.len() == 0 && m.decl@.len() == 0
}

/// Every module is bare.
pub open spec fn all_bare(ms: Seq<(Vec<String>, Module)>) -> bool {
    forall|i: int| 0 <= i < ms.len() ==> bare(#[trigger] ms[i].1)
}

/// The name under which an imported function is known: its alias, or its name.
pub open spec fn visible_name_of(f: ImpFunc) -> Seq<char> {
    match f.alias {
        Some(a) => (*a)@->Ident_0,
        None => (*f.ident)@->Ident_0,
    }
}

/// The names of the functions an import takes by name.
pub open spec fn imp_names(i: Imp) -> Seq<Seq<char>> {
    match i.funcs {
        ImpFuncs::Funcs(fs) => Seq::new(fs@.len(), |k: int| visible_name_of(fs@[k])),
        ImpFuncs::Wildcard(_) => Seq::empty(),
    }
}

/// The names of the functions the imports take by name, in order.
pub open spec fn imports_names(imps: Seq<Imp>) -> Seq<Seq<char>>
    decreases imps.len(),
{
    if imps.len() == 0 {
        Seq::empty()
    } else {
        imports_names(imps.drop_last()) + imp_names(imps.last())
    }
}

/// What an import by name binds: each visible name, with the module the import names and
/// the function taken from it.
pub open spec fn imp_entries(i: Imp) -> Seq<(Seq<char>, Seq<Seq<char>>, Seq<char>)> {
    match i.funcs {
        ImpFuncs::Funcs(fs) => Seq::new(fs@.len(), |k: int| (visible_name_of(fs@[k]), imp_path(i), (*fs@[k].ident)@->Ident_0)),
        ImpFuncs::Wildcard(_) => Seq::empty(),
    }
}

/// What the imports by name bind, in order.
pub open spec fn imports_entries(imps: Seq<Imp>) -> Seq<(Seq<char>, Seq<Seq<char>>, Seq<char>)>
    decreases imps.len(),
{
    if imps.len() == 0 {
        Seq::empty()
    } else {
        imports_entries(imps.drop_last()) + imp_entries(imps.last())
    }
}

/// `ctx` binds, in this order, exactly the names of `es`, each to the function of `es`.
pub open spec fn binds_exactly(ctx: Seq<(String, FuncImport)>, es: Seq<(Seq<char>, Seq<Seq<char>>, Seq<char>)>) -> bool {
    &&& ctx.len() == es.len()
    &&& forall|i: int| 0 <= i < ctx.len() ==> (#[trigger] ctx[i]).0@ == es[i].0 && ctx[i].1.module@ == es[i].1
        && ctx[i].1.ident@ == es[i].2
}

/// The imports of module `from` take functions by name only, under distinct names, each
/// from a module other than `from` that is known and declares the function.
pub open spec fn direct_imports(ms: Seq<(Vec<String>, Module)>, from: int) -> bool {
    let imps = ms[from].1.imp@;
    &&& distinct_names(imports_names(imps))
    &&& forall|k: int| 0 <= k < imps.len() ==> (#[trigger] imps[k]).funcs is Funcs
        && imp_path(imps[k]) != str_views(ms[from].0@)
        && (exists|j: int| 0 <= j < ms.len() && str_views((#[trigger] ms[j]).0@) == imp_path(imps[k]))
    &&& forall|k: int, j: int, e: int| 0 <= k < imps.len() && 0 <= j < ms.len()
        && str_views(ms[j].0@) == imp_path(imps[k]) && 0 <= e < imp_entries(imps[k]).len()
        ==> declared_names((#[trigger] ms[j]).1).contains((#[trigger] imp_entries(imps[k])[e]).2)
}

/// The names a module gives functions: those it declares, then those it imports by name.
pub open spec fn known_names(m: Module) -> Seq<Seq<char>> {
    Seq::new(m.decl@.len(), |k: int| (*m.decl@[k].ident)@->Ident_0) + imports_names(m.imp@)
}

/// No name occurs twice.
pub open spec fn distinct_names(s: Seq<Seq<char>>) -> bool {
    forall|a: int, b: int| 0 <= a < b < s.len() ==> s[a] != s[b]
}

/// What an import resolves to: functions by name, each the import of a declaration, and
/// the modules that were loaded from the library on the way.
pub type Resolved = (Vec<(String, FuncImport)>, Vec<Vec<String>>);

/// The results of resolving a module's wildcard import, and an imported function of a
/// module, kept for later imports of the same.
pub struct Cache {
    pub wildcard: Vec<(Vec<String>, StdResult<Resolved>)>,
    pub impfunc: Vec<(Vec<String>, String, Option<String>, StdResult<Resolved>)>,
}

/// Every function of `ctx` is bound to the name `n`, and there is at least one.
pub open spec fn keyed_by(ctx: Seq<(String, FuncImport)>, n: Seq<char>) -> bool {
    ctx.len() > 0 && forall|e: int| 0 <= e < ctx.len() ==> (#[trigger] ctx[e]).0@ == n
}

/// The name an entry of the imported-function cache binds: the alias, else the name.
pub open spec fn entry_name(e: (Vec<String>, String, Option<String>, StdResult<Resolved>)) -> Seq<char> {
    match opt_view(e.2) {
        Some(a) => a,
        None => e.1@,
    }
}

/// Each resolved imported function in the cache is bound to its visible name.
pub open spec fn cache_wf(c: Cache) -> bool {
    forall|i: int| 0 <= i < c.impfunc@.len() ==> ((#[trigger] c.impfunc@[i]).3 matches Ok((ctx, _)) ==> keyed_by(ctx@,
        entry_name(c.impfunc@[i])))
}

/// A copy of a result binds the names the result binds.
proof fn lemma_keyed_copy(a: StdResult<Resolved>, b: StdResult<Resolved>, n: Seq<char>)
    requires
        resolved_copy(a, b),
        a matches Ok((ctx, _)) ==> keyed_by(ctx@, n),
    ensures
        b matches Ok((ctx, _)) ==> keyed_by(ctx@, n),
{
    match (a, b) {
        (Ok((c1, _)), Ok((c2, _))) => {
            assert forall|e: int| 0 <= e < c2@.len() implies (#[trigger] c2@[e]).0@ == n by {
                assert(c1@[e].0@ == c2@[e].0@);
            }
        },
        _ => {},
    }
}

/// Some function of `ctx` is bound to the name `n`.
pub open spec fn has_key(ctx: Seq<(String, FuncImport)>, n: Seq<char>) -> bool {
    exists|i: int| 0 <= i < ctx.len() && (#[trigger] ctx[i]).0@ == n
}

/// Replacing an entry by one of the same name keeps the names bound.
proof fn lemma_keys_set(a: Seq<(String, FuncImport)>, b: Seq<(String, FuncImport)>, at: int)
    requires
        b.len() == a.len(),
        0 <= at < a.len(),
        b[at].0@ == a[at].0@,
        forall|j: int| 0 <= j < a.len() && j != at ==> b[j] == a[j],
    ensures
        forall|n: Seq<char>| has_key(a, n) ==> #[trigger] has_key(b, n),
{
    assert forall|n: Seq<char>| has_key(a, n) implies #[trigger] has_key(b, n) by {
        let i = choose|i: int| 0 <= i < a.len() && (#[trigger] a[i]).0@ == n;
        if i != at {
            assert(b[i] == a[i]);
        }
        assert(b[i].0@ == n);
    }
}

/// Adding an entry keeps the names bound.
proof fn lemma_keys_push(a: Seq<(String, FuncImport)>, b: Seq<(String, FuncImport)>)
    requires
        b.len() == a.len() + 1,
        forall|j: int| 0 <= j < a.len() ==> b[j] == a[j],
    ensures
        forall|n: Seq<char>| has_key(a, n) ==> #[trigger] has_key(b, n),
{
    assert forall|n: Seq<char>| has_key(a, n) implies #[trigger] has_key(b, n) by {
        let i = choose|i: int| 0 <= i < a.len() && (#[trigger] a[i]).0@ == n;
        assert(b[i] == a[i]);
    }
}

fn copy_resolved(r: &StdResult<Resolved>) -> (c: StdResult<Resolved>)
    ensures
        resolved_copy(*r, c),
{
    match r {
        Ok((ctx, new)) => {
            let mut c: Vec<(String, FuncImport)> = Vec::new();
            let mut i: usize = 0;
            while i < ctx.len()
                invariant
                    i <= ctx@.len(),
                    c@.len() == i,
                    forall|j: int| 0 <= j < i ==> (#[trigger] ctx@[j]).0@ == c@[j].0@
                        && ctx@[j].1.module@ == c@[j].1.module@ && ctx@[j].1.ident@ == c@[j].1.ident@,
                decreases ctx.len() - i,
            {
                c.push((ctx[i].0.clone(), ctx[i].1.copy()));
                i = i + 1;
            }
            Ok((c, clone_history(new)))
        },
        Err(es) => Err(es.clone()),
    }
}

/// The cached resolution of the wildcard import of `to`, if there is one: a copy of the
/// first entry for `to`.
fn cached_wildcard(cache: &Cache, to: &Vec<String>) -> (r: Option<StdResult<Resolved>>)
    ensures
        r matches Some(x) ==> exists|i: int| 0 <= i < cache.wildcard@.len()
            && str_views((#[trigger] cache.wildcard@[i]).0@) == str_views(to@) && resolved_copy(cache.wildcard@[i].1, x),
        r is None ==> forall|i: int| 0 <= i < cache.wildcard@.len()
            ==> str_views((#[trigger] cache.wildcard@[i]).0@) != str_views(to@),
{
    let mut i: usize = 0;
    while i < cache.wildcard.len()
        invariant
            i <= cache.wildcard@.len(),
            forall|j: int| 0 <= j < i ==> str_views((#[trigger] cache.wildcard@[j]).0@) != str_views(to@),
        decreases cache.wildcard.len() - i,
    {
        if names_eq(&cache.wildcard[i].0, to) {
            let x = copy_resolved(&cache.wildcard[i].1);
            assert(str_views(cache.wildcard@[i as int].0@) == str_views(to@));
            return Some(x);
        }
        i = i + 1;
    }
    None
}

fn same_opt(a: &Option<String>, b: &Option<String>) -> (r: bool)
    ensures
        r == opt_str_eq(*a, *b),
{
    match (a, b) {
        (Some(x), Some(y)) => *x == *y,
        (None, None) => true,
        _ => false,
    }
}

/// The cached resolution of the function `ident` (as `alias`) of `to`, if there is one:
/// a copy of the first entry for them.
fn cached_impfunc(cache: &Cache, to: &Vec<String>, ident: &String, alias: &Option<String>) -> (r: Option<StdResult<Resolved>>)
    ensures
        r matches Some(x) ==> exists|i: int| 0 <= i < cache.impfunc@.len()
            && str_views((#[trigger] cache.impfunc@[i]).0@) == str_views(to@) && cache.impfunc@[i].1@ == ident@
            && opt_str_eq(cache.impfunc@[i].2, *alias) && resolved_copy(cache.impfunc@[i].3, x),
        r is None ==> forall|i: int| 0 <= i < cache.impfunc@.len() ==> !(str_views((#[trigger] cache.impfunc@[i]).0@) == str_views(to@)
            && cache.impfunc@[i].1@ == ident@ && opt_str_eq(cache.impfunc@[i].2, *alias)),
{
    let mut i: usize = 0;
    while i < cache.impfunc.len()
        invariant
            i <= cache.impfunc@.len(),
            forall|j: int| 0 <= j < i ==> !(str_views((#[trigger] cache.impfunc@[j]).0@) == str_views(to@)
                && cache.impfunc@[j].1@ == ident@ && opt_str_eq(cache.impfunc@[j].2, *alias)),
        decreases cache.impfunc.len() - i,
    {
        if names_eq(&cache.impfunc[i].0, to) && cache.impfunc[i].1 == *ident && same_opt(&cache.impfunc[i].2, alias) {
            let x = copy_resolved(&cache.impfunc[i].3);
            assert(str_views(cache.impfunc@[i as int].0@) == str_views(to@));
            return Some(x);
        }
        i = i + 1;
    }
    None
}

fn names_eq(a: &Vec<String>, b: &Vec<String>) -> (r: bool)
    ensures
        r == (str_views(a@) == str_views(b@)),
{
    if a.len() != b.len() {
        assert(str_views(a@).len() != str_views(b@).len());
        return false;
    }
    let mut i: usize = 0;
    while i < a.len()
        invariant
            i <= a@.len(),
            a@.len() == b@.len(),
            forall|j: int| 0 <= j < i ==> a@[j]@ == b@[j]@,
        decreases a.len() - i,
    {
        if !(a[i] == b[i]) {
            assert(str_views(a@)[i as int] != str_views(b@)[i as int]);
            return false;
        }
        i = i + 1;
    }
    assert(str_views(a@) =~= str_views(b@));
    true
}

/// `to` was already passed on the way from `from`: an import would go round in a circle.
pub open spec fn circular(from: Seq<Seq<char>>, to: Seq<Seq<char>>, history: Seq<Vec<String>>) -> bool {
    to == from || exists|k: int| 0 <= k < history.len() && str_views((#[trigger] history[k])@) == to
}

/// The cache holds a resolution of the wildcard import of `to`.
pub open spec fn wildcard_cached(c: Cache, to: Seq<Seq<char>>) -> bool {
    exists|i: int| 0 <= i < c.wildcard@.len() && str_views((#[trigger] c.wildcard@[i]).0@) == to
}

/// The cache holds a resolution of the function `ident` (as `alias`) of `to`.
pub open spec fn impfunc_cached(c: Cache, to: Seq<Seq<char>>, ident: Seq<char>, alias: Option<Seq<char>>) -> bool {
    exists|i: int| 0 <= i < c.impfunc@.len() && str_views((#[trigger] c.impfunc@[i]).0@) == to
        && c.impfunc@[i].1@ == ident && opt_view(c.impfunc@[i].2) == alias
}

/// The characters of an optional name.
pub open spec fn opt_view(a: Option<String>) -> Option<Seq<char>> {
    match a {
        Some(s) => Some(s@),
        None => None,
    }
}

/// The alias of an imported function, if it has one.
pub open spec fn alias_of(f: ImpFunc) -> Option<Seq<char>> {
    match f.alias {
        Some(a) => Some((*a)@->Ident_0),
        None => None,
    }
}

/// An import of a module under `fs` that is not among the modules `ms`: one that cannot
/// be found.
pub open spec fn fs_unknown(ms: Seq<(Vec<String>, Module)>, i: Imp) -> bool {
    &&& imp_path(i).len() > 0
    &&& imp_path(i)[0] == "fs"@
    &&& forall|j: int| 0 <= j < ms.len() ==> str_views((#[trigger] ms[j]).0@) != imp_path(i)
}

/// The names of the functions a module declares, in order.
pub open spec fn declared_names(m: Module) -> Seq<Seq<char>> {
    Seq::new(m.decl@.len(), |k: int| (*m.decl@[k].ident)@->Ident_0)
}

/// The path of an import.
pub open spec fn imp_path(i: Imp) -> Seq<Seq<char>> {
    Seq::new(i.path@.len(), |k: int| i.path@[k]@->Ident_0)
}

/// Two optional names are the same.
pub open spec fn opt_str_eq(a: Option<String>, b: Option<String>) -> bool {
    match (a, b) {
        (Some(x), Some(y)) => x@ == y@,
        (None, None) => true,
        _ => false,
    }
}

/// Two error codes are the same, field by field (texts by their characters).
pub open spec fn code_eq(a: ErrorCode, b: ErrorCode) -> bool {
    match (a, b) {
        (ErrorCode::CouldNotFindModule { module: m1 }, ErrorCode::CouldNotFindModule { module: m2 }) => m1@ == m2@,
        (
            ErrorCode::CouldNotFindFunction { module: m1, func: f1 },
            ErrorCode::CouldNotFindFunction { module: m2, func: f2 },
        ) => m1@ == m2@ && f1@ == f2@,
        (
            ErrorCode::CircularImport { message: s1, module: m1, history: h1, origin: o1 },
            ErrorCode::CircularImport { message: s2, module: m2, history: h2, origin: o2 },
        ) => s1@ == s2@ && m1@ == m2@ && str_views(h1@) == str_views(h2@) && o1@ == o2@,
        (
            ErrorCode::FunctionNameCollision { module: m1, func: f1, count: c1 },
            ErrorCode::FunctionNameCollision { module: m2, func: f2, count: c2 },
        ) => m1@ == m2@ && f1@ == f2@ && c1 == c2,
        (
            ErrorCode::MultipleModuleCandidates { module: m1, count: c1 },
            ErrorCode::MultipleModuleCandidates { module: m2, count: c2 },
        ) => m1@ == m2@ && c1 == c2,
        (
            ErrorCode::UnexpectedExprType { message: s1, expected: e1, got: g1 },
            ErrorCode::UnexpectedExprType { message: s2, expected: e2, got: g2 },
        ) => s1@ == s2@ && e1@ == e2@ && g1@ == g2@,
        (
            ErrorCode::FunctionRecursionDetected { stack: s1, module: m1, func: f1, count: c1 },
            ErrorCode::FunctionRecursionDetected { stack: s2, module: m2, func: f2, count: c2 },
        ) => str_views(s1@) == str_views(s2@) && m1@ == m2@ && f1@ == f2@ && c1 == c2,
        (
            ErrorCode::FunctionUnexpectedNumberOfArguments { module: m1, func: f1, expected: e1, got: g1 },
            ErrorCode::FunctionUnexpectedNumberOfArguments { module: m2, func: f2, expected: e2, got: g2 },
        ) => m1@ == m2@ && f1@ == f2@ && e1 == e2 && g1 == g2,
        (ErrorCode::StrictModeViolation { violation: v1 }, ErrorCode::StrictModeViolation { violation: v2 }) => v1 == v2,
        _ => false,
    }
}

/// Two parse error descriptions are the same, part by part.
pub open spec fn parse_info_eq(a: PestErrorInfo, b: PestErrorInfo) -> bool
    decreases a,
{
    match (a, b) {
        (
            PestErrorInfo::Error { variant: v1, location: l1, line_col: c1 },
            PestErrorInfo::Error { variant: v2, location: l2, line_col: c2 },
        ) => parse_info_eq(*v1, *v2) && parse_info_eq(*l1, *l2) && parse_info_eq(*c1, *c2),
        (
            PestErrorInfo::ErrorVariantParsingError { positives: p1, negatives: n1 },
            PestErrorInfo::ErrorVariantParsingError { positives: p2, negatives: n2 },
        ) => str_views(p1@) == str_views(p2@) && str_views(n1@) == str_views(n2@),
        (PestErrorInfo::ErrorVariantCustomError(x), PestErrorInfo::ErrorVariantCustomError(y)) => x@ == y@,
        (PestErrorInfo::InputLocation(x), PestErrorInfo::InputLocation(y)) => x == y,
        (PestErrorInfo::LineColLocation(x), PestErrorInfo::LineColLocation(y)) => x.0 == y.0 && x.1 == y.1,
        _ => false,
    }
}

/// Two error variants are the same.
pub open spec fn variant_eq(a: ErrorVariant, b: ErrorVariant) -> bool {
    match (a, b) {
        (ErrorVariant::Message(x), ErrorVariant::Message(y)) => x@ == y@,
        (ErrorVariant::ErrorCode(x), ErrorVariant::ErrorCode(y)) => code_eq(x, y),
        (ErrorVariant::Rust(crate::errors::RustError::Io(x)), ErrorVariant::Rust(crate::errors::RustError::Io(y))) => x@ == y@,
        (ErrorVariant::Parse(x), ErrorVariant::Parse(y)) => parse_info_eq(x, y),
        _ => false,
    }
}

/// The errors of `s` appended to `acc`, each only where no error of the same variant
/// is there yet.
pub open spec fn unique_from(s: Seq<Error>, acc: Seq<Error>) -> Seq<Error>
    decreases s.len(),
{
    if s.len() == 0 {
        acc
    } else if exists|k: int| 0 <= k < acc.len() && variant_eq(#[trigger] acc[k].variant, s[0].variant) {
        unique_from(s.drop_first(), acc)
    } else {
        unique_from(s.drop_first(), acc.push(s[0]))
    }
}

/// The errors kept never get fewer: a first error is always kept.
proof fn lemma_unique_from_grows(s: Seq<Error>, acc: Seq<Error>)
    ensures
        unique_from(s, acc).len() >= acc.len(),
        s.len() > 0 ==> unique_from(s, acc).len() > 0,
    decreases s.len(),
{
    if s.len() > 0 {
        lemma_unique_from_grows(s.drop_first(), acc);
        lemma_unique_from_grows(s.drop_first(), acc.push(s[0]));
        if acc.len() == 0 {
            assert(!(exists|k: int| 0 <= k < acc.len() && variant_eq(#[trigger] acc[k].variant, s[0].variant)));
        }
    }
}

/// One text sorts before another: at the first character where they differ, or by being
/// shorter where one is a prefix of the other.
pub open spec fn str_lt(x: Seq<char>, y: Seq<char>) -> bool
    decreases x.len(),
{
    if x.len() == 0 {
        y.len() > 0
    } else if y.len() == 0 {
        false
    } else if x[0] != y[0] {
        x[0] < y[0]
    } else {
        str_lt(x.drop_first(), y.drop_first())
    }
}

/// One name sorts before another: part by part, as `str_lt` orders the parts.
pub open spec fn names_lt(a: Seq<Seq<char>>, b: Seq<Seq<char>>) -> bool
    decreases a.len(),
{
    if a.len() == 0 {
        b.len() > 0
    } else if b.len() == 0 {
        false
    } else if a[0] != b[0] {
        str_lt(a[0], b[0])
    } else {
        names_lt(a.drop_first(), b.drop_first())
    }
}

/// `b` is a copy of the resolution `a`: the same functions by name, the same imports,
/// the same loaded modules; or an error of as many errors.
pub open spec fn resolved_copy(a: StdResult<Resolved>, b: StdResult<Resolved>) -> bool {
    match (a, b) {
        (Ok((c1, h1)), Ok((c2, h2))) => c1@.len() == c2@.len()
            && (forall|i: int| 0 <= i < c1@.len() ==> (#[trigger] c1@[i]).0@ == c2@[i].0@
                && c1@[i].1.module@ == c2@[i].1.module@ && c1@[i].1.ident@ == c2@[i].1.ident@)
            && h1@.len() == h2@.len()
            && forall|k: int| 0 <= k < h1@.len() ==> str_views((#[trigger] h1@[k])@) == str_views(h2@[k]@),
        (Err(e1), Err(e2)) => e1@.len() == e2@.len(),
        _ => false,
    }
}

fn ident_of(e: &Expr) -> (r: String)
    requires
        e@ is Ident,
    ensures
        e@ == SExpr::Ident(r@),
{
    match e {
        Expr::Ident(s) => s.clone(),
        _ => vstd::pervasive::unreached(),
    }
}

/// The path of an import, as strings.
fn path_of(imp: &Imp) -> (r: Vec<String>)
    requires
        imp_wf(*imp),
    ensures
        r@.len() == imp.path@.len(),
        str_views(r@) == imp_path(*imp),
{
    let mut r: Vec<String> = Vec::new();
    let mut i: usize = 0;
    while i < imp.path.len()
        invariant
            i <= imp.path@.len(),
            r@.len() == i,
            imp_wf(*imp),
            forall|j: int| 0 <= j < i ==> (#[trigger] r@[j])@ == imp.path@[j]@->Ident_0,
        decreases imp.path.len() - i,
    {
        assert(is_ident(imp.path@[i as int]));
        r.push(ident_of(&imp.path[i]));
        i = i + 1;
    }
    assert(str_views(r@) =~= imp_path(*imp));
    r
}

/// The name under which an imported function is known: its alias, or its name.
fn visible_name(f: &ImpFunc) -> (r: String)
    requires
        imp_func_wf(*f),
    ensures
        r@ == visible_name_of(*f),
{
    match &f.alias {
        Some(a) => ident_of(a),
        None => ident_of(&f.ident),
    }
}

fn copy_imp_func(f: &ImpFunc) -> (r: ImpFunc)
    ensures
        imp_func_wf(*f) ==> imp_func_wf(r),
        visible_name_of(r) == visible_name_of(*f),
        (*r.ident)@ == (*f.ident)@,
{
    ImpFunc {
        ident: Box::new(clone_expr(&f.ident)),
        alias: match &f.alias {
            Some(a) => Some(Box::new(clone_expr(a))),
            None => None,
        },
    }
}

fn copy_imp(i: &Imp) -> (r: Imp)
    ensures
        imp_wf(*i) ==> imp_wf(r),
        r.lno == i.lno,
        r.funcs is Wildcard <==> i.funcs is Wildcard,
        imp_names(r) == imp_names(*i),
        imp_path(r) == imp_path(*i),
        imp_entries(r) == imp_entries(*i),
{
    let path = clone_exprs(&i.path);
    proof {
        assert(views(path@).len() == path@.len() && views(i.path@).len() == i.path@.len());
        assert forall|k: int| 0 <= k < path@.len() implies path@[k]@ == i.path@[k]@ by {
            assert(path@[k]@ == views(path@)[k]);
            assert(i.path@[k]@ == views(i.path@)[k]);
        }
    }
    proof {
        assert(views(path@).len() == path@.len());
        assert(views(i.path@).len() == i.path@.len());
        assert forall|k: int| 0 <= k < path@.len() && imp_wf(*i) implies is_ident(#[trigger] path@[k]) by {
            assert(path@[k]@ == views(path@)[k]);
            assert(i.path@[k]@ == views(i.path@)[k]);
            assert(is_ident(i.path@[k]));
        }
    }
    let funcs = match &i.funcs {
        ImpFuncs::Funcs(fs) => {
            let mut v: Vec<ImpFunc> = Vec::new();
            let mut k: usize = 0;
            while k < fs.len()
                invariant
                    k <= fs@.len(),
                    v@.len() == k,
                    forall|j: int| 0 <= j < k ==> (imp_func_wf(fs@[j]) ==> imp_func_wf(#[trigger] v@[j])),
                    forall|j: int| 0 <= j < k ==> visible_name_of(#[trigger] v@[j]) == visible_name_of(fs@[j]),
                    forall|j: int| 0 <= j < k ==> (*(#[trigger] v@[j]).ident)@ == (*fs@[j].ident)@,
                decreases fs.len() - k,
            {
                v.push(copy_imp_func(&fs[k]));
                k = k + 1;
            }
            proof {
                assert(Seq::new(v@.len(), |k: int| visible_name_of(v@[k])) =~= Seq::new(fs@.len(), |k: int| visible_name_of(fs@[k])));
            }
            ImpFuncs::Funcs(v)
        },
        ImpFuncs::Wildcard(w) => ImpFuncs::Wildcard(*w),
    };
    let r = Imp { lno: i.lno, path, funcs };
    assert(imp_path(r) =~= imp_path(*i));
    assert(imp_entries(r) =~= imp_entries(*i));
    r
}

/// A copy of a list of imports.
pub(crate) fn copy_imps(v: &Vec<Imp>) -> (r: Vec<Imp>)
    ensures
        r@.len() == v@.len(),
        forall|k: int| 0 <= k < v@.len() ==> (imp_wf(v@[k]) ==> imp_wf(#[trigger] r@[k])),
        imports_names(r@) == imports_names(v@),
{
    let mut r: Vec<Imp> = Vec::new();
    let mut k: usize = 0;
    while k < v.len()
        invariant
            k <= v@.len(),
            r@.len() == k,
            forall|j: int| 0 <= j < k ==> (imp_wf(v@[j]) ==> imp_wf(#[trigger] r@[j])),
            forall|j: int| 0 <= j < k ==> imp_names(#[trigger] r@[j]) == imp_names(v@[j]),
        decreases v.len() - k,
    {
        r.push(copy_imp(&v[k]));
        k = k + 1;
    }
    proof {
        lemma_imports_names_eq(r@, v@);
    }
    r
}

/// A copy of a list of declarations.
pub(crate) fn copy_decls(v: &Vec<FuncDecl>) -> (r: Vec<FuncDecl>)
    ensures
        r@.len() == v@.len(),
        forall|k: int| 0 <= k < v@.len() ==> (decl_wf(v@[k]) ==> decl_wf(#[trigger] r@[k])),
        forall|k: int| 0 <= k < v@.len() ==> (#[trigger] r@[k]).ident@ == v@[k].ident@,
{
    let mut r: Vec<FuncDecl> = Vec::new();
    let mut k: usize = 0;
    while k < v.len()
        invariant
            k <= v@.len(),
            r@.len() == k,
            forall|j: int| 0 <= j < k ==> (decl_wf(v@[j]) ==> decl_wf(#[trigger] r@[j])),
            forall|j: int| 0 <= j < k ==> (#[trigger] r@[j]).ident@ == v@[j].ident@,
        decreases v.len() - k,
    {
        r.push(copy_decl_wf(&v[k]));
        k = k + 1;
    }
    r
}

/// The imports of module `idx`.
fn imports_of(modules: &Vec<(Vec<String>, Module)>, idx: usize) -> (r: Vec<Imp>)
    requires
        idx < modules@.len(),
        mods_wf(modules@),
    ensures
        forall|k: int| 0 <= k < r@.len() ==> imp_wf(#[trigger] r@[k]),
        r@.len() == modules@[idx as int].1.imp@.len(),
        forall|k: int| 0 <= k < r@.len() ==> imp_names(#[trigger] r@[k]) == imp_names(modules@[idx as int].1.imp@[k]),
        forall|k: int| 0 <= k < r@.len() ==> imp_path(#[trigger] r@[k]) == imp_path(modules@[idx as int].1.imp@[k]),
        forall|k: int| 0 <= k < r@.len() ==> imp_entries(#[trigger] r@[k]) == imp_entries(modules@[idx as int].1.imp@[k]),
        forall|k: int| 0 <= k < r@.len() ==> ((#[trigger] r@[k]).funcs is Wildcard <==> modules@[idx as int].1.imp@[k].funcs is Wildcard),
{
    let m = &modules[idx].1;
    assert(module_wf(modules@[idx as int].1));
    let mut r: Vec<Imp> = Vec::new();
    let mut k: usize = 0;
    while k < m.imp.len()
        invariant
            k <= m.imp@.len(),
            r@.len() == k,
            forall|j: int| 0 <= j < k ==> imp_names(#[trigger] r@[j]) == imp_names(m.imp@[j]),
            forall|j: int| 0 <= j < k ==> imp_path(#[trigger] r@[j]) == imp_path(m.imp@[j]),
            forall|j: int| 0 <= j < k ==> imp_entries(#[trigger] r@[j]) == imp_entries(m.imp@[j]),
            forall|j: int| 0 <= j < k ==> ((#[trigger] r@[j]).funcs is Wildcard <==> m.imp@[j].funcs is Wildcard),
            module_wf(*m),
            forall|j: int| 0 <= j < r@.len() ==> imp_wf(#[trigger] r@[j]),
        decreases m.imp.len() - k,
    {
        assert(imp_wf(m.imp@[k as int]));
        r.push(copy_imp(&m.imp[k]));
        k = k + 1;
    }
    r
}

/// The names of the functions declared in module `idx`.
fn decl_names(modules: &Vec<(Vec<String>, Module)>, idx: usize) -> (r: Vec<String>)
    requires
        idx < modules@.len(),
        mods_wf(modules@),
    ensures
        r@.len() == modules@[idx as int].1.decl@.len(),
        forall|k: int| 0 <= k < r@.len() ==> (#[trigger] r@[k])@ == (*modules@[idx as int].1.decl@[k].ident)@->Ident_0,
{
    let m = &modules[idx].1;
    assert(module_wf(modules@[idx as int].1));
    let mut r: Vec<String> = Vec::new();
    let mut k: usize = 0;
    while k < m.decl.len()
        invariant
            k <= m.decl@.len(),
            r@.len() == k,
            module_wf(*m),
            forall|j: int| 0 <= j < r@.len() ==> (#[trigger] r@[j])@ == (*m.decl@[j].ident)@->Ident_0,
        decreases m.decl.len() - k,
    {
        assert(decl_wf(m.decl@[k as int]));
        r.push(ident_of(&m.decl[k].ident));
        k = k + 1;
    }
    r
}

/// The first entry of `name` in `ctx` binds it to the function `name` of `module`.
pub open spec fn binds_first(ctx: Seq<(String, FuncImport)>, module: Seq<Seq<char>>, name: Seq<char>) -> bool {
    exists|e: int| 0 <= e < ctx.len() && (#[trigger] ctx[e]).0@ == name && (forall|j: int| 0 <= j < e ==> ctx[j].0@ != name)
        && ctx[e].1.module@ == module && ctx[e].1.ident@ == name
}

/// Every entry of `ctx` binds a function that the module `m` (named `module`) declares to
/// that function of `module`.
pub open spec fn only_decls(ctx: Seq<(String, FuncImport)>, module: Seq<Seq<char>>, m: Module) -> bool {
    forall|e: int| 0 <= e < ctx.len() ==> declared_names(m).contains((#[trigger] ctx[e]).0@) && ctx[e].1.module@ == module
        && ctx[e].1.ident@ == ctx[e].0@
}

/// An entry added last keeps what the first entries bind.
proof fn lemma_binds_push(a: Seq<(String, FuncImport)>, b: Seq<(String, FuncImport)>, module: Seq<Seq<char>>)
    requires
        b.len() == a.len() + 1,
        forall|j: int| 0 <= j < a.len() ==> b[j] == a[j],
    ensures
        forall|n: Seq<char>| binds_first(a, module, n) ==> #[trigger] binds_first(b, module, n),
{
    assert forall|n: Seq<char>| binds_first(a, module, n) implies #[trigger] binds_first(b, module, n) by {
        let e = choose|e: int| 0 <= e < a.len() && (#[trigger] a[e]).0@ == n && (forall|j: int| 0 <= j < e ==> a[j].0@ != n)
            && a[e].1.module@ == module && a[e].1.ident@ == n;
        assert(b[e] == a[e]);
        assert forall|j: int| 0 <= j < e implies b[j].0@ != n by {
            assert(b[j] == a[j]);
        }
    }
}

/// Setting the first entry of `n` to `n` bound in `module` keeps what the first entries
/// bind, and binds `n`.
proof fn lemma_binds_set(a: Seq<(String, FuncImport)>, b: Seq<(String, FuncImport)>, at: int, module: Seq<Seq<char>>,
    n: Seq<char>)
    requires
        b.len() == a.len(),
        0 <= at < a.len(),
        a[at].0@ == n,
        forall|j: int| 0 <= j < at ==> a[j].0@ != n,
        b[at].0@ == n && b[at].1.module@ == module && b[at].1.ident@ == n,
        forall|j: int| 0 <= j < a.len() && j != at ==> b[j] == a[j],
    ensures
        forall|m: Seq<char>| binds_first(a, module, m) ==> #[trigger] binds_first(b, module, m),
        binds_first(b, module, n),
{
    assert forall|m: Seq<char>| binds_first(a, module, m) implies #[trigger] binds_first(b, module, m) by {
        let e = choose|e: int| 0 <= e < a.len() && (#[trigger] a[e]).0@ == m && (forall|j: int| 0 <= j < e ==> a[j].0@ != m)
            && a[e].1.module@ == module && a[e].1.ident@ == m;
        if e == at {
            assert(m == n);
        } else {
            assert(b[e] == a[e]);
        }
        assert forall|j: int| 0 <= j < e implies b[j].0@ != m by {
            if j == at {
                assert(a[at].0@ == n);
            } else {
                assert(b[j] == a[j]);
            }
        }
    }
    assert forall|j: int| 0 <= j < at implies b[j].0@ != n by {
        assert(b[j] == a[j]);
    }
    assert(b[at].0@ == n);
}

fn find_name(v: &Vec<(String, FuncImport)>, name: &String) -> (r: Option<usize>)
    ensures
        r matches Some(i) ==> i < v@.len() && v@[i as int].0@ == name@
            && forall|j: int| 0 <= j < i ==> (#[trigger] v@[j]).0@ != name@,
        r is None ==> forall|j: int| 0 <= j < v@.len() ==> (#[trigger] v@[j]).0@ != name@,
{
    let mut i: usize = 0;
    while i < v.len()
        invariant
            i <= v@.len(),
            forall|j: int| 0 <= j < i ==> (#[trigger] v@[j]).0@ != name@,
        decreases v.len() - i,
    {
        if v[i].0 == *name {
            return Some(i);
        }
        i = i + 1;
    }
    None
}

fn contains_str(v: &Vec<String>, s: &String) -> (r: bool)
    ensures
        r == exists|j: int| 0 <= j < v@.len() && (#[trigger] v@[j])@ == s@,
{
    let mut i: usize = 0;
    while i < v.len()
        invariant
            i <= v@.len(),
            forall|j: int| 0 <= j < i ==> (#[trigger] v@[j])@ != s@,
        decreases v.len() - i,
    {
        if v[i] == *s {
            return true;
        }
        i = i + 1;
    }
    false
}

/// Comparing texts from position `k` on: where the characters differ, they decide; where
/// they agree, the comparison moves one on; where one text ends, the shorter sorts first.
proof fn lemma_str_lt_step(x: Seq<char>, y: Seq<char>, k: int)
    requires
        0 <= k <= x.len(),
        k <= y.len(),
    ensures
        k < x.len() && k < y.len() && x[k] != y[k] ==> str_lt(x.skip(k), y.skip(k)) == (x[k] < y[k]),
        k < x.len() && k < y.len() && x[k] == y[k] ==> str_lt(x.skip(k), y.skip(k)) == str_lt(x.skip(k + 1), y.skip(k + 1)),
        k == x.len() || k == y.len() ==> str_lt(x.skip(k), y.skip(k)) == (x.len() - k < y.len() - k),
        x.skip(0) == x && y.skip(0) == y,
{
    assert(x.skip(0) =~= x);
    assert(y.skip(0) =~= y);
    if k < x.len() && k < y.len() {
        assert(x.skip(k)[0] == x[k]);
        assert(y.skip(k)[0] == y[k]);
        assert(x.skip(k).drop_first() =~= x.skip(k + 1));
        assert(y.skip(k).drop_first() =~= y.skip(k + 1));
    }
}

/// Comparing names from part `i` on, as `lemma_str_lt_step` does for texts.
proof fn lemma_names_lt_step(a: Seq<Seq<char>>, b: Seq<Seq<char>>, i: int)
    requires
        0 <= i <= a.len(),
        i <= b.len(),
    ensures
        i < a.len() && i < b.len() && a[i] != b[i] ==> names_lt(a.skip(i), b.skip(i)) == str_lt(a[i], b[i]),
        i < a.len() && i < b.len() && a[i] == b[i] ==> names_lt(a.skip(i), b.skip(i)) == names_lt(a.skip(i + 1), b.skip(i + 1)),
        i == a.len() || i == b.len() ==> names_lt(a.skip(i), b.skip(i)) == (a.len() - i < b.len() - i),
        a.skip(0) == a && b.skip(0) == b,
{
    assert(a.skip(0) =~= a);
    assert(b.skip(0) =~= b);
    if i < a.len() && i < b.len() {
        assert(a.skip(i)[0] == a[i]);
        assert(b.skip(i)[0] == b[i]);
        assert(a.skip(i).drop_first() =~= a.skip(i + 1));
        assert(b.skip(i).drop_first() =~= b.skip(i + 1));
    }
}

/// Whether the first name sorts before the second (part by part, character by character).
fn name_less(a: &Vec<String>, b: &Vec<String>) -> (r: bool)
    ensures
        r == names_lt(str_views(a@), str_views(b@)),
{
    let ghost sa = str_views(a@);
    let ghost sb = str_views(b@);
    proof {
        lemma_names_lt_step(sa, sb, 0);
    }
    let mut i: usize = 0;
    while i < a.len() && i < b.len()
        invariant
            i <= a@.len(),
            i <= b@.len(),
            sa == str_views(a@),
            sb == str_views(b@),
            names_lt(sa, sb) == names_lt(sa.skip(i as int), sb.skip(i as int)),
        decreases a.len() - i,
    {
        let x = a[i].as_str();
        let y = b[i].as_str();
        let ghost xs = sa[i as int];
        let ghost ys = sb[i as int];
        assert(x@ == xs && y@ == ys);
        let n = x.unicode_len();
        let m = y.unicode_len();
        proof {
            lemma_names_lt_step(sa, sb, i as int);
            lemma_str_lt_step(xs, ys, 0);
        }
        let mut k: usize = 0;
        while k < n && k < m
            invariant
                n == xs.len(),
                m == ys.len(),
                x@ == xs,
                y@ == ys,
                k <= n,
                k <= m,
                str_lt(xs, ys) == str_lt(xs.skip(k as int), ys.skip(k as int)),
                forall|j: int| 0 <= j < k ==> xs[j] == ys[j],
                xs != ys ==> names_lt(sa, sb) == str_lt(xs, ys),
                sa == str_views(a@),
                sb == str_views(b@),
            decreases n - k,
        {
            let c = x.get_char(k);
            let d = y.get_char(k);
            proof {
                lemma_str_lt_step(xs, ys, k as int);
            }
            if c < d {
                assert(xs != ys) by {
                    assert(xs[k as int] != ys[k as int]);
                }
                return true;
            }
            if d < c {
                assert(xs != ys) by {
                    assert(xs[k as int] != ys[k as int]);
                }
                return false;
            }
            k = k + 1;
        }
        proof {
            lemma_str_lt_step(xs, ys, k as int);
        }
        if n < m {
            assert(xs != ys);
            return true;
        }
        if m < n {
            assert(xs != ys);
            return false;
        }
        assert(xs =~= ys);
        i = i + 1;
    }
    proof {
        lemma_names_lt_step(sa, sb, i as int);
    }
    a.len() < b.len()
}

fn single(e: Error) -> (r: Vec<Error>)
    ensures
        r@ == seq![e],
{
    let mut v: Vec<Error> = Vec::new();
    v.push(e);
    v
}

proof fn lemma_imp_funcs(i: Imp, fs: Vec<ImpFunc>)
    requires
        imp_wf(i),
        i.funcs == ImpFuncs::Funcs(fs),
    ensures
        forall|k: int| 0 <= k < fs@.len() ==> imp_func_wf(#[trigger] fs@[k]),
{
    match i.funcs {
        ImpFuncs::Funcs(g) => {
            assert(g == fs);
            assert forall|k: int| 0 <= k < fs@.len() implies imp_func_wf(#[trigger] fs@[k]) by {
                assert(imp_func_wf(g@[k]));
            }
        },
        _ => {},
    }
}

/// Where the module `name` is.
fn position_of(modules: &Vec<(Vec<String>, Module)>, name: &Vec<String>) -> (r: Option<usize>)
    ensures
        r matches Some(i) ==> i < modules@.len() && str_views(modules@[i as int].0@) == str_views(name@)
            && forall|j: int| 0 <= j < i ==> str_views(modules@[j].0@) != str_views(name@),
        r is None ==> forall|j: int| 0 <= j < modules@.len() ==> str_views(modules@[j].0@) != str_views(name@),
{
    let mut i: usize = 0;
    while i < modules.len()
        invariant
            i <= modules@.len(),
            forall|j: int| 0 <= j < i ==> str_views(modules@[j].0@) != str_views(name@),
        decreases modules.len() - i,
    {
        if names_eq(&modules[i].0, name) {
            return Some(i);
        }
        i = i + 1;
    }
    None
}

// ---------------------------------------------------------------------------
// Finding and loading modules

/// The extensions of library files, in the order they are looked up.
pub open spec fn lib_ext(e: int) -> Seq<char> {
    if e == 0 {
        "lp"@
    } else if e == 1 {
        "loop"@
    } else if e == 2 {
        "while"@
    } else {
        "wh"@
    }
}

/// The library holds the file of the module `name` with extension `ext`.
pub open spec fn lib_has(lib: Directory, name: Seq<Seq<char>>, ext: Seq<char>) -> bool {
    exists|k: int| 0 <= k < flat_files(lib).len() && lib_path_of(#[trigger] flat_files(lib)[k].0, name, ext)
}

/// The library path `p` is a file of the module `name` with one of the library extensions.
pub open spec fn lib_file_of(p: Seq<Seq<char>>, name: Seq<Seq<char>>) -> bool {
    exists|e: int| 0 <= e < 4 && lib_path_of(p, name, #[trigger] lib_ext(e))
}

/// The text `c` is a module: declarations and statements the grammar accepts.
pub open spec fn text_ok(c: Seq<char>) -> bool {
    c.len() < usize::MAX && exists|ds: Seq<Decl>, sts: Seq<Stmt>| module_ok(ds, sts) && #[trigger] module_text(ds, sts) == c
}

/// The module `m` imports nothing and declares exactly the functions of the text `c`, in
/// order.
pub open spec fn decls_of_text(m: Module, c: Seq<char>) -> bool {
    exists|ds: Seq<Decl>, sts: Seq<Stmt>| #[trigger] module_text(ds, sts) == c && m.imp@.len() == 0 && m.decl@.len() == ds.len()
        && forall|i: int| 0 <= i < ds.len() ==> decl_parsed(#[trigger] m.decl@[i], ds[i])
}

/// How many of the first `n` library extensions have a file of the module `name`.
pub open spec fn lib_count(lib: Directory, name: Seq<Seq<char>>, n: int) -> nat
    decreases n,
{
    if n <= 0 {
        0
    } else {
        lib_count(lib, name, n - 1) + (if lib_has(lib, name, lib_ext(n - 1)) { 1nat } else { 0nat })
    }
}

/// Counting more extensions counts no fewer files.
proof fn lemma_lib_count_mono(lib: Directory, name: Seq<Seq<char>>, n: int, m: int)
    requires
        0 <= n <= m,
    ensures
        lib_count(lib, name, n) <= lib_count(lib, name, m),
    decreases m - n,
{
    if n < m {
        lemma_lib_count_mono(lib, name, n, m - 1);
    }
}

/// Some extension among the first `n` has a file where the count is positive.
proof fn lemma_lib_count_pos(lib: Directory, name: Seq<Seq<char>>, n: int)
    requires
        lib_count(lib, name, n) > 0,
    ensures
        exists|e: int| 0 <= e < n && #[trigger] lib_has(lib, name, lib_ext(e)),
    decreases n,
{
    if n > 0 && !lib_has(lib, name, lib_ext(n - 1)) {
        lemma_lib_count_pos(lib, name, n - 1);
    }
}

/// The library path `p` is the file of the module `name` with extension `ext`: `a/b/c.ext`
/// for `a::b::c`.
pub open spec fn lib_path_of(p: Seq<Seq<char>>, name: Seq<Seq<char>>, ext: Seq<char>) -> bool {
    &&& name.len() > 0
    &&& p.len() == name.len()
    &&& forall|i: int| 0 <= i < name.len() - 1 ==> p[i] == name[i]
    &&& p[name.len() - 1] == name[name.len() - 1] + "."@ + ext
}

/// The library file of the module `name` with extension `ext`: `a/b/c.ext` for `a::b::c`.
/// The contents of the first such file of the walk, or `None` where there is none.
fn lib_file(lib: &Directory, name: &Vec<String>, ext: &str) -> (r: Option<String>)
    ensures
        r matches Some(c) ==> exists|k: int| 0 <= k < flat_files(*lib).len()
            && lib_path_of((#[trigger] flat_files(*lib)[k]).0, str_views(name@), ext@) && flat_files(*lib)[k].1 == c@,
        r is None ==> forall|k: int| 0 <= k < flat_files(*lib).len()
            ==> !lib_path_of((#[trigger] flat_files(*lib)[k]).0, str_views(name@), ext@),
{
    let ghost files = flat_files(*lib);
    let ghost sn = str_views(name@);
    if name.len() == 0 {
        return None;
    }
    let mut it = lib.walk();
    loop
        invariant
            name@.len() > 0,
            sn == str_views(name@),
            files == flat_files(*lib),
            it.items() == files,
            it.position() <= files.len(),
            forall|k: int| 0 <= k < it.position() ==> !lib_path_of((#[trigger] files[k]).0, sn, ext@),
        decreases it.items().len() - it.position(),
    {
        let ghost pos = it.position();
        let next = it.next();
        match next {
            Some((path, contents)) => {
                let ghost pv = str_views(path@);
                assert(pv == files[pos as int].0);
                if path.len() == name.len() {
                    let mut same = true;
                    let mut i: usize = 0;
                    while i < path.len()
                        invariant
                            path@.len() == name@.len(),
                            name@.len() > 0,
                            i <= path@.len(),
                            pv == str_views(path@),
                            sn == str_views(name@),
                            same == (forall|j: int| 0 <= j < i ==> (if j < sn.len() - 1 { pv[j] == sn[j] }
                                else { pv[j] == sn[j] + "."@ + ext@ })),
                        decreases path.len() - i,
                    {
                        let ghost j0 = i as int;
                        let ghost before = same;
                        let ok_here;
                        if i + 1 < path.len() {
                            ok_here = path[i] == name[i];
                            assert(ok_here == (pv[j0] == sn[j0]));
                        } else {
                            let mut file = name[i].clone();
                            file.append(".");
                            file.append(ext);
                            proof {
                                reveal_strlit(".");
                            }
                            assert(file@ == sn[j0] + "."@ + ext@);
                            ok_here = path[i] == file;
                        }
                        if !ok_here {
                            same = false;
                        }
                        i = i + 1;
                        assert(same == (before && (if j0 < sn.len() - 1 { pv[j0] == sn[j0] }
                            else { pv[j0] == sn[j0] + "."@ + ext@ })));
                    }
                    if same {
                        proof {
                            assert forall|j: int| 0 <= j < sn.len() - 1 implies pv[j] == sn[j] by {
                                assert(if j < sn.len() - 1 { pv[j] == sn[j] } else { pv[j] == sn[j] + "."@ + ext@ });
                            }
                            let l = sn.len() - 1;
                            assert(if l < sn.len() - 1 { pv[l] == sn[l] } else { pv[l] == sn[l] + "."@ + ext@ });
                        }
                        return Some(contents);
                    }
                    proof {
                        if lib_path_of(pv, sn, ext@) {
                            assert forall|j: int| 0 <= j < path@.len() implies (if j < sn.len() - 1 { pv[j] == sn[j] }
                                else { pv[j] == sn[j] + "."@ + ext@ }) by {}
                        }
                    }
                }
            },
            None => {
                return None;
            },
        }
    }
}

/// The module of an import: one already known, or (for a path outside `fs`) one loaded
/// from the library, which must have exactly one file among the extensions `lp`, `loop`,
/// `while` and `wh`. Returns its index and whether it was loaded now.
fn find_module(modules: &mut Vec<(Vec<String>, Module)>, lib: &Directory, imp: &Imp) -> (r: StdResult<(usize, bool)>)
    requires
        imp_wf(*imp),
        mods_wf(old(modules)@),
    ensures
        mods_wf(final(modules)@),
        final(modules)@.len() >= old(modules)@.len(),
        forall|k: int| 0 <= k < old(modules)@.len() ==> final(modules)@[k] == old(modules)@[k],
        r matches Ok((i, _)) ==> i < final(modules)@.len() && str_views(final(modules)@[i as int].0@) == imp_path(*imp),
        (exists|j: int| 0 <= j < old(modules)@.len() && str_views((#[trigger] old(modules)@[j]).0@) == imp_path(*imp))
            ==> (r matches Ok((i, new)) && !new && i < old(modules)@.len()
            && forall|j: int| 0 <= j < i ==> str_views((#[trigger] old(modules)@[j]).0@) != imp_path(*imp)),
        fs_unknown(old(modules)@, *imp) ==> (r matches Err(es) && es@.len() > 0 && final(modules)@ == old(modules)@),
        (exists|j: int| 0 <= j < old(modules)@.len() && str_views((#[trigger] old(modules)@[j]).0@) == imp_path(*imp))
            ==> final(modules)@ == old(modules)@,
        imp_path(*imp).len() > 0 && imp_path(*imp)[0] != "fs"@ && lib_count(*lib, imp_path(*imp), 4) == 1
            ==> (r is Ok || (r matches Err(es) && es@.len() == 1 && es@[0].variant is Parse)),
        imp_path(*imp).len() > 0 && imp_path(*imp)[0] != "fs"@ && lib_count(*lib, imp_path(*imp), 4) >= 2
            && (forall|j: int| 0 <= j < old(modules)@.len() ==> str_views((#[trigger] old(modules)@[j]).0@) != imp_path(*imp))
            ==> (r matches Err(es) && es@.len() == 1 && (es@[0].variant is Parse
            || (es@[0].variant matches ErrorVariant::ErrorCode(ErrorCode::MultipleModuleCandidates { count, .. }) && count as nat
            == lib_count(*lib, imp_path(*imp), 4)))),
        imp_path(*imp).len() > 0 && imp_path(*imp)[0] != "fs"@ && lib_count(*lib, imp_path(*imp), 4) == 0
            && (forall|j: int| 0 <= j < old(modules)@.len() ==> str_views((#[trigger] old(modules)@[j]).0@) != imp_path(*imp))
            ==> (r matches Err(es) && es@.len() == 1
            && (es@[0].variant matches ErrorVariant::ErrorCode(ErrorCode::CouldNotFindModule { module })
            && module@ == join_spec(imp_path(*imp), "::"@))),
        r matches Ok((_, new)) && new ==> exists|e: int| 0 <= e < 4 && #[trigger] lib_has(*lib, imp_path(*imp), lib_ext(e)),
        r is Ok && r->Ok_0.1 ==> exists|f: int| 0 <= f < flat_files(*lib).len()
            && lib_file_of(#[trigger] flat_files(*lib)[f].0, imp_path(*imp))
            && (text_ok(flat_files(*lib)[f].1) ==> decls_of_text(final(modules)@[r->Ok_0.0 as int].1, flat_files(*lib)[f].1)),
{
    let name = path_of(imp);
    let mut found = position_of(modules, &name);
    let mut new = false;
    let is_fs = name.len() > 0 && crate::verbs::str_eq(name[0].as_str(), "fs");
    proof {
        if name@.len() > 0 {
            assert(str_views(name@)[0] == name@[0]@);
        }
    }
    let ghost mut gf: int = 0;
    let ghost files = flat_files(*lib);
    if found.is_none() && !is_fs {
        let mut inserted: usize = 0;
        let mut k: usize = 0;
        while k < 4
            invariant
                mods_wf(modules@),
                modules@.len() >= old(modules)@.len(),
                forall|j: int| 0 <= j < old(modules)@.len() ==> modules@[j] == old(modules)@[j],
                found matches Some(x) ==> x < modules@.len() && str_views(modules@[x as int].0@) == str_views(name@),
                str_views(name@) == imp_path(*imp),
                !fs_unknown(old(modules)@, *imp),
                k <= 4,
                inserted as nat == lib_count(*lib, imp_path(*imp), k as int),
                found is Some <==> inserted > 0,
                files == flat_files(*lib),
                found matches Some(x) ==> 0 <= gf < files.len() && lib_file_of(files[gf].0, imp_path(*imp))
                    && (text_ok(files[gf].1) ==> decls_of_text(modules@[x as int].1, files[gf].1)),
                inserted <= k,
                forall|j: int| 0 <= j < old(modules)@.len() ==> str_views(modules@[j].0@) != str_views(name@),
            decreases 4 - k,
        {
            let ext = if k == 0 { "lp" } else if k == 1 { "loop" } else if k == 2 { "while" } else { "wh" };
            assert(ext@ == lib_ext(k as int));
            match lib_file(lib, &name, ext) {
                Some(contents) => {
                    proof {
                        assert(lib_has(*lib, imp_path(*imp), lib_ext(k as int)));
                        lemma_lib_count_mono(*lib, imp_path(*imp), k as int + 1, 4);
                    }
                    let ghost fk = choose|q: int| 0 <= q < flat_files(*lib).len()
                        && lib_path_of((#[trigger] flat_files(*lib)[q]).0, str_views(name@), ext@) && flat_files(*lib)[q].1 == contents@;
                    proof {
                        assert(lib_file_of(files[fk].0, imp_path(*imp))) by {
                            assert(0 <= k < 4 && lib_path_of(files[fk].0, imp_path(*imp), lib_ext(k as int)));
                        }
                    }
                    let src = contents.as_str();
                    let parsed = LoopParser::parse(src, &ParseSettings::new(None));
                    match parsed {
                        Ok(m) => {
                            proof {
                                if text_ok(files[fk].1) {
                                    assert(src@ == contents@);
                                    let (ds, sts) = choose|ds: Seq<Decl>, sts: Seq<Stmt>| #[trigger] module_text(ds, sts) == src@ && module_parsed(m, ds, sts);
                                    assert(forall|i: int| 0 <= i < ds.len() ==> decl_parsed(#[trigger] m.decl@[i], ds[i]));
                                }
                            }
                            let ghost pm = m;
                            let m = Module { imp: m.imp, decl: m.decl, code: Hir::NoOp };
                            let mut j: usize = 0;
                            let mut at: Option<usize> = None;
                            while j < modules.len()
                                invariant
                                    j <= modules@.len(),
                                    at matches Some(x) ==> x < modules@.len() && str_views(modules@[x as int].0@) == str_views(name@),
                                decreases modules.len() - j,
                            {
                                if names_eq(&modules[j].0, &name) {
                                    at = Some(j);
                                    break;
                                }
                                j = j + 1;
                            }
                            match at {
                                Some(x) => {
                                    let ghost before = modules@;
                                    modules.set(x, (clone_strings(&name), m));
                                    found = Some(x);
                                    proof {
                                        assert forall|j: int| 0 <= j < modules@.len() implies module_wf(#[trigger] modules@[j].1) by {
                                            if j != x {
                                                assert(modules@[j] == before[j]);
                                            }
                                        }
                                    }
                                },
                                None => {
                                    let ghost before = modules@;
                                    modules.push((clone_strings(&name), m));
                                    found = Some(modules.len() - 1);
                                    proof {
                                        assert forall|j: int| 0 <= j < modules@.len() implies module_wf(#[trigger] modules@[j].1) by {
                                            if j < before.len() {
                                                assert(modules@[j] == before[j]);
                                            }
                                        }
                                    }
                                },
                            }
                            proof {
                                gf = fk;
                                let fx = found->Some_0;
                                assert(modules@[fx as int].1.decl == pm.decl && modules@[fx as int].1.imp == pm.imp);
                                if text_ok(files[gf].1) {
                                    let (ds, sts) = choose|ds: Seq<Decl>, sts: Seq<Stmt>| #[trigger] module_text(ds, sts) == files[gf].1 && module_parsed(pm, ds, sts);
                                    assert(decls_of_text(modules@[fx as int].1, files[gf].1));
                                }
                            }
                            inserted = inserted + 1;
                        },
                        Err(e) => {
                            return Err(single(e));
                        },
                    }
                },
                None => {},
            }
            k = k + 1;
        }
        proof {
            if inserted > 0 {
                lemma_lib_count_pos(*lib, imp_path(*imp), 4);
            }
        }
        if inserted > 1 {
            return Err(
                single(
                    Error::new_from_code(
                        Some(imp.lno),
                        ErrorCode::MultipleModuleCandidates { module: join(&name, "::"), count: inserted },
                    ),
                ),
            );
        }
        if inserted == 1 {
            new = true;
        }
    }
    match found {
        Some(i) => Ok((i, new)),
        None => Err(single(Error::new_from_code(Some(imp.lno), ErrorCode::CouldNotFindModule { module: join(&name, "::") }))),
    }
}

// ---------------------------------------------------------------------------
// Resolving imports

/// An error when `to` was already passed on the way from `from` (a circular import).
fn catch_circular(from: &Vec<String>, to: &Vec<String>, history: &Vec<Vec<String>>) -> (r: StdResult<()>)
    ensures
        r is Err <==> (str_views(to@) == str_views(from@) || exists|k: int|
            0 <= k < history@.len() && str_views((#[trigger] history@[k])@) == str_views(to@)),
        r matches Err(es) ==> es@.len() == 1 && es@[0].lno == (0usize, 0usize)
            && (es@[0].variant matches ErrorVariant::ErrorCode(ErrorCode::CircularImport { module, history: h, origin, .. })
            && module@ == join_spec(str_views(to@), "::"@) && origin@ == join_spec(str_views(from@), "::"@)
            && h@.len() == history@.len() + 1 && h@[0]@ == join_spec(str_views(from@), "::"@)
            && forall|j: int| 0 <= j < history@.len() ==> (#[trigger] h@[j + 1])@ == join_spec(str_views(history@[j]@), "::"@)),
{
    let mut full: Vec<Vec<String>> = Vec::new();
    full.push(clone_strings(from));
    let mut k: usize = 0;
    while k < history.len()
        invariant
            k <= history@.len(),
            full@.len() == k + 1,
            str_views(full@[0]@) == str_views(from@),
            forall|j: int| 0 <= j < k ==> str_views((#[trigger] full@[j + 1])@) == str_views(history@[j]@),
        decreases history.len() - k,
    {
        full.push(clone_strings(&history[k]));
        k = k + 1;
    }
    let mut idx: usize = 0;
    let mut hit = false;
    while idx < full.len() && !hit
        invariant
            idx <= full@.len(),
            full@.len() == history@.len() + 1,
            str_views(full@[0]@) == str_views(from@),
            forall|j: int| 0 <= j < history@.len() ==> str_views((#[trigger] full@[j + 1])@) == str_views(history@[j]@),
            forall|j: int| 0 <= j < idx ==> str_views(#[trigger] full@[j]@) != str_views(to@),
            hit ==> idx < full@.len() && str_views(full@[idx as int]@) == str_views(to@),
        decreases (full.len() - idx) * 2 + (if hit { 0int } else { 1int }),
    {
        if names_eq(&full[idx], to) {
            hit = true;
        } else {
            idx = idx + 1;
        }
    }
    if !hit {
        proof {
            if str_views(to@) == str_views(from@) {
                assert(str_views(full@[0]@) != str_views(to@));
            }
            assert forall|k2: int| 0 <= k2 < history@.len() implies str_views((#[trigger] history@[k2])@) != str_views(to@) by {
                assert(str_views(full@[k2 + 1]@) != str_views(to@));
            }
        }
        return Ok(());
    }
    proof {
        if idx > 0 {
            let k2 = (idx - 1) as int;
            assert(str_views(full@[k2 + 1]@) == str_views(history@[k2]@));
            assert(str_views(history@[k2]@) == str_views(to@));
        }
    }
    let mut strings: Vec<String> = Vec::new();
    let mut j: usize = 0;
    while j < full.len()
        invariant
            j <= full@.len(),
            strings@.len() == j,
            forall|m: int| 0 <= m < j ==> (#[trigger] strings@[m])@ == join_spec(str_views(full@[m]@), "::"@),
        decreases full.len() - j,
    {
        strings.push(join(&full[j], "::"));
        j = j + 1;
    }
    let circular = join(to, "::");
    let mut prev = String::new();
    let mut j: usize = 0;
    while j < idx && j < strings.len()
        decreases idx - j,
    {
        if j > 0 {
            prev.append(" -> ");
        }
        prev.append(strings[j].as_str());
        j = j + 1;
    }
    let mut path = String::new();
    let mut j: usize = idx;
    while j < strings.len()
        decreases strings.len() - j,
    {
        path.append(strings[j].as_str());
        path.append(" -> ");
        j = j + 1;
    }
    path.append(circular.as_str());
    proof {
        assert(strings@[0]@ == join_spec(str_views(from@), "::"@));
        assert forall|m: int| 0 <= m < history@.len() implies (#[trigger] strings@[m + 1])@ == join_spec(str_views(history@[m]@), "::"@) by {
            assert(str_views(full@[m + 1]@) == str_views(history@[m]@));
        }
    }
    let mut message = String::from_str("Found Circular Import, ");
    message.append(circular.as_str());
    message.append(" tried to import itself. (");
    message.append(prev.as_str());
    message.append(" | ");
    message.append(path.as_str());
    message.append(")");
    Err(
        single(
            Error::new_from_code(
                None,
                ErrorCode::CircularImport { message, module: circular, history: strings, origin: join(from, "::") },
            ),
        ),
    )
}

/// The error that resolution went deeper than there are modules.
fn too_deep(from: &Vec<String>, to: &Vec<String>) -> (r: Vec<Error>)
    ensures
        r@.len() == 1,
        r@[0].lno == (0usize, 0usize),
        r@[0].variant matches ErrorVariant::ErrorCode(ErrorCode::CircularImport { message, module, history, origin })
            && message@ == "Imports nest deeper than there are modules"@
            && module@ == join_spec(str_views(to@), "::"@)
            && origin@ == join_spec(str_views(from@), "::"@)
            && str_views(history@) == seq![join_spec(str_views(from@), "::"@)],
{
    let mut history: Vec<String> = Vec::new();
    history.push(join(from, "::"));
    single(
        Error::new_from_code(
            None,
            ErrorCode::CircularImport {
                message: String::from_str("Imports nest deeper than there are modules"),
                module: join(to, "::"),
                history,
                origin: join(from, "::"),
            },
        ),
    )
}

fn append_errors(errors: &mut Vec<Error>, es: Vec<Error>)
    ensures
        final(errors)@ == old(errors)@ + es@,
{
    let mut es = es;
    errors.append(&mut es);
}

/// Every function of module `to` (declared or imported), for `FROM to IMPORT *` in `from`.
fn resolve_wildcard(from: usize, to: usize, modules: &mut Vec<(Vec<String>, Module)>, lib: &Directory,
    history: &Vec<Vec<String>>, cache: &mut Cache, fuel: usize) -> (r: StdResult<Resolved>)
    requires
        from < old(modules)@.len(),
        to < old(modules)@.len(),
        mods_wf(old(modules)@),
        cache_wf(*old(cache)),
    ensures
        cache_wf(*final(cache)),
        mods_wf(final(modules)@),
        final(modules)@.len() >= old(modules)@.len(),
        forall|k: int| 0 <= k < old(modules)@.len() ==> final(modules)@[k] == old(modules)@[k],
        wildcard_cached(*old(cache), str_views(old(modules)@[to as int].0@)) ==> exists|i: int| 0 <= i < old(cache).wildcard@.len()
            && str_views((#[trigger] old(cache).wildcard@[i]).0@) == str_views(old(modules)@[to as int].0@)
            && resolved_copy(old(cache).wildcard@[i].1, r),
        !wildcard_cached(*old(cache), str_views(old(modules)@[to as int].0@)) && (fuel == 0
            || circular(str_views(old(modules)@[from as int].0@), str_views(old(modules)@[to as int].0@), history@))
            ==> r is Err,
        !wildcard_cached(*old(cache), str_views(old(modules)@[to as int].0@)) ==> (r matches Ok((ctx, _)) ==> forall|a: int|
            0 <= a < old(modules)@[to as int].1.decl@.len() ==> binds_first(ctx@, str_views(old(modules)@[to as int].0@),
            (*(#[trigger] old(modules)@[to as int].1.decl@[a]).ident)@->Ident_0)),
        !wildcard_cached(*old(cache), str_views(old(modules)@[to as int].0@)) && fuel > 0
            && !circular(str_views(old(modules)@[from as int].0@), str_views(old(modules)@[to as int].0@), history@)
            ==> final(cache).wildcard@.len() > 0 && str_views(final(cache).wildcard@.last().0@) == str_views(old(modules)@[to as int].0@)
            && resolved_copy(r, final(cache).wildcard@.last().1),
        !wildcard_cached(*old(cache), str_views(old(modules)@[to as int].0@)) && fuel > 0
            && !circular(str_views(old(modules)@[from as int].0@), str_views(old(modules)@[to as int].0@), history@)
            && old(modules)@[to as int].1.imp@.len() == 0 ==> (r matches Ok((ctx, new)) && new@.len() == 0
            && only_decls(ctx@, str_views(old(modules)@[to as int].0@), old(modules)@[to as int].1)),
    decreases fuel, 1nat,
{
    let from_name = clone_strings(&modules[from].0);
    let to_name = clone_strings(&modules[to].0);
    if let Some(hit) = cached_wildcard(cache, &to_name) {
        return hit;
    }
    if fuel == 0 {
        return Err(too_deep(&from_name, &to_name));
    }
    catch_circular(&from_name, &to_name, history)?;
    let mut history = clone_history(history);
    history.push(clone_strings(&to_name));

    let mut imports: Vec<(String, FuncImport)> = Vec::new();
    let mut errors: Vec<Error> = Vec::new();
    let mut new: Vec<Vec<String>> = Vec::new();

    let names = decl_names(modules, to);
    let ghost tv = str_views(to_name@);
    assert(tv == str_views(old(modules)@[to as int].0@));
    let mut k: usize = 0;
    while k < names.len()
        invariant
            k <= names@.len(),
            forall|a: int| 0 <= a < k ==> binds_first(imports@, tv, (#[trigger] names@[a])@),
            tv == str_views(to_name@),
            modules@ == old(modules)@,
            names@.len() == old(modules)@[to as int].1.decl@.len(),
            forall|a: int| 0 <= a < names@.len() ==> (#[trigger] names@[a])@ == (*old(modules)@[to as int].1.decl@[a].ident)@->Ident_0,
            only_decls(imports@, tv, old(modules)@[to as int].1),
            errors@.len() == 0 && new@.len() == 0,
        decreases names.len() - k,
    {
        let entry = FuncImport { module: ModuleName::from(clone_strings(&to_name)), ident: FuncName::from(names[k].clone()) };
        let ghost before = imports@;
        assert(declared_names(old(modules)@[to as int].1)[k as int] == names@[k as int]@);
        match find_name(&imports, &names[k]) {
            Some(at) => {
                imports.set(at, (names[k].clone(), entry));
                proof {
                    lemma_binds_set(before, imports@, at as int, tv, names@[k as int]@);
                }
            },
            None => {
                imports.push((names[k].clone(), entry));
                proof {
                    lemma_binds_push(before, imports@, tv);
                    assert(binds_first(imports@, tv, names@[k as int]@)) by {
                        assert(imports@[before.len() as int].0@ == names@[k as int]@);
                    }
                }
            },
        }
        k = k + 1;
    }

    let imps = imports_of(modules, to);
    let ghost imp0 = imports@;
    let mut k: usize = 0;
    while k < imps.len()
        invariant
            fuel > 0,
            from < modules@.len(),
            mods_wf(modules@),
            modules@.len() >= old(modules)@.len(),
            forall|j: int| 0 <= j < old(modules)@.len() ==> modules@[j] == old(modules)@[j],
            forall|j: int| 0 <= j < imps@.len() ==> imp_wf(#[trigger] imps@[j]),
            forall|a: int| 0 <= a < names@.len() ==> binds_first(imports@, tv, (#[trigger] names@[a])@),
            cache_wf(*cache),
            k <= imps@.len(),
            imps@.len() == old(modules)@[to as int].1.imp@.len(),
            imps@.len() == 0 ==> errors@.len() == 0 && new@.len() == 0 && imports@ == imp0,
        decreases imps.len() - k,
    {
        let imp = &imps[k];
        assert(imp_wf(imps@[k as int]));
        let found = find_module(modules, lib, imp);
        match found {
            Err(es) => {
                append_errors(&mut errors, es);
            },
            Ok((idx, imported)) => {
                if imported {
                    new.push(clone_strings(&modules[idx].0));
                }
                let mut results: Vec<Resolved> = Vec::new();
                match &imp.funcs {
                    ImpFuncs::Funcs(remote) => {
                        let mut j: usize = 0;
                        while j < remote.len()
                            invariant
                                fuel > 0,
                                from < modules@.len(),
                                idx < modules@.len(),
                                mods_wf(modules@),
                                modules@.len() >= old(modules)@.len(),
                                forall|m: int| 0 <= m < old(modules)@.len() ==> modules@[m] == old(modules)@[m],
                                imp_wf(*imp),
                                imp.funcs == ImpFuncs::Funcs(*remote),
                                cache_wf(*cache),
                            decreases remote.len() - j,
                        {
                            proof {
                                lemma_imp_funcs(*imp, *remote);
                            }
                            match resolve_impfunc(from, idx, &remote[j], modules, lib, &history, cache, fuel - 1) {
                                Ok(res) => {
                                    results.push(res);
                                },
                                Err(es) => {
                                    append_errors(&mut errors, es);
                                },
                            }
                            j = j + 1;
                        }
                    },
                    ImpFuncs::Wildcard(_) => {
                        match resolve_wildcard(from, idx, modules, lib, &history, cache, fuel - 1) {
                            Ok(res) => {
                                results.push(res);
                            },
                            Err(es) => {
                                append_errors(&mut errors, es);
                            },
                        }
                    },
                }
                let mut j: usize = 0;
                while j < results.len()
                    invariant
                        forall|a: int| 0 <= a < names@.len() ==> binds_first(imports@, tv, (#[trigger] names@[a])@),
                    decreases results.len() - j,
                {
                    let (res, imported) = &results[j];
                    let mut m: usize = 0;
                    while m < imported.len()
                        decreases imported.len() - m,
                    {
                        new.push(clone_strings(&imported[m]));
                        m = m + 1;
                    }
                    let mut m: usize = 0;
                    while m < res.len()
                        invariant
                            forall|a: int| 0 <= a < names@.len() ==> binds_first(imports@, tv, (#[trigger] names@[a])@),
                        decreases res.len() - m,
                    {
                        let (name, context) = &res[m];
                        let ghost before = imports@;
                        match find_name(&imports, name) {
                            Some(_) => {
                                errors.push(
                                    Error::new_from_code(
                                        Some(imp.lno),
                                        ErrorCode::FunctionNameCollision {
                                            module: join(&to_name, "::"),
                                            func: name.clone(),
                                            count: None,
                                        },
                                    ),
                                );
                            },
                            None => {
                                imports.push((name.clone(), context.copy()));
                                proof {
                                    lemma_binds_push(before, imports@, tv);
                                }
                            },
                        }
                        m = m + 1;
                    }
                    j = j + 1;
                }
            },
        }
        k = k + 1;
    }
    proof {
        assert forall|a: int| 0 <= a < old(modules)@[to as int].1.decl@.len() implies binds_first(imports@, tv,
            (*(#[trigger] old(modules)@[to as int].1.decl@[a]).ident)@->Ident_0) by {
            assert(names@[a]@ == (*old(modules)@[to as int].1.decl@[a].ident)@->Ident_0);
        }
    }
    let res = if errors.len() > 0 {
        Err(errors)
    } else {
        Ok((imports, new))
    };
    cache.wildcard.push((to_name, copy_resolved(&res)));
    res
}

fn clone_history(h: &Vec<Vec<String>>) -> (r: Vec<Vec<String>>)
    ensures
        r@.len() == h@.len(),
        forall|k: int| 0 <= k < h@.len() ==> str_views((#[trigger] r@[k])@) == str_views(h@[k]@),
{
    let mut r: Vec<Vec<String>> = Vec::new();
    let mut k: usize = 0;
    while k < h.len()
        invariant
            k <= h@.len(),
            r@.len() == k,
            forall|j: int| 0 <= j < k ==> str_views((#[trigger] r@[j])@) == str_views(h@[j]@),
        decreases h.len() - k,
    {
        r.push(clone_strings(&h[k]));
        k = k + 1;
    }
    r
}

/// The function `target` of module `to` (declared there, imported there by name, or
/// found through one of its wildcard imports), for an import in `from`.
fn resolve_impfunc(from: usize, to: usize, target: &ImpFunc, modules: &mut Vec<(Vec<String>, Module)>, lib: &Directory,
    history: &Vec<Vec<String>>, cache: &mut Cache, fuel: usize) -> (r: StdResult<Resolved>)
    requires
        from < old(modules)@.len(),
        to < old(modules)@.len(),
        mods_wf(old(modules)@),
        imp_func_wf(*target),
        cache_wf(*old(cache)),
    ensures
        cache_wf(*final(cache)),
        r matches Ok((ctx, _)) ==> keyed_by(ctx@, visible_name_of(*target)),
        mods_wf(final(modules)@),
        final(modules)@.len() >= old(modules)@.len(),
        forall|k: int| 0 <= k < old(modules)@.len() ==> final(modules)@[k] == old(modules)@[k],
        impfunc_cached(*old(cache), str_views(old(modules)@[to as int].0@), (*target.ident)@->Ident_0, alias_of(*target))
            ==> exists|i: int| 0 <= i < old(cache).impfunc@.len()
            && str_views((#[trigger] old(cache).impfunc@[i]).0@) == str_views(old(modules)@[to as int].0@)
            && old(cache).impfunc@[i].1@ == (*target.ident)@->Ident_0 && opt_view(old(cache).impfunc@[i].2) == alias_of(*target)
            && resolved_copy(old(cache).impfunc@[i].3, r),
        !impfunc_cached(*old(cache), str_views(old(modules)@[to as int].0@), (*target.ident)@->Ident_0, alias_of(*target))
            && (fuel == 0 || circular(str_views(old(modules)@[from as int].0@), str_views(old(modules)@[to as int].0@), history@))
            ==> r is Err,
        !impfunc_cached(*old(cache), str_views(old(modules)@[to as int].0@), (*target.ident)@->Ident_0, alias_of(*target))
            && fuel > 0 && !circular(str_views(old(modules)@[from as int].0@), str_views(old(modules)@[to as int].0@), history@)
            && declared_names(old(modules)@[to as int].1).contains((*target.ident)@->Ident_0)
            ==> (r matches Ok((ctx, new)) && new@.len() == 0 && ctx@.len() == 1 && ctx@[0].0@ == visible_name_of(*target)
            && ctx@[0].1.module@ == str_views(old(modules)@[to as int].0@) && ctx@[0].1.ident@ == (*target.ident)@->Ident_0
            && final(modules)@ == old(modules)@ && final(cache).wildcard == old(cache).wildcard
            && final(cache).impfunc@.len() == old(cache).impfunc@.len() + 1
            && forall|i: int| 0 <= i < old(cache).impfunc@.len() ==> final(cache).impfunc@[i] == old(cache).impfunc@[i]),
        !impfunc_cached(*old(cache), str_views(old(modules)@[to as int].0@), (*target.ident)@->Ident_0, alias_of(*target))
            ==> (r matches Ok((ctx, _)) ==> forall|e: int| 0 <= e < ctx@.len() ==> (#[trigger] ctx@[e]).0@ == visible_name_of(*target)),
        !impfunc_cached(*old(cache), str_views(old(modules)@[to as int].0@), (*target.ident)@->Ident_0, alias_of(*target))
            && fuel > 0 && !circular(str_views(old(modules)@[from as int].0@), str_views(old(modules)@[to as int].0@), history@)
            && r is Ok ==> final(cache).impfunc@.len() > 0
            && str_views(final(cache).impfunc@.last().0@) == str_views(old(modules)@[to as int].0@)
            && final(cache).impfunc@.last().1@ == (*target.ident)@->Ident_0
            && opt_view(final(cache).impfunc@.last().2) == alias_of(*target)
            && resolved_copy(r, final(cache).impfunc@.last().3),
        !impfunc_cached(*old(cache), str_views(old(modules)@[to as int].0@), (*target.ident)@->Ident_0, alias_of(*target))
            && fuel > 0 && !circular(str_views(old(modules)@[from as int].0@), str_views(old(modules)@[to as int].0@), history@)
            && !declared_names(old(modules)@[to as int].1).contains((*target.ident)@->Ident_0)
            && old(modules)@[to as int].1.imp@.len() == 0 ==> (r matches Err(es) && es@.len() == 1 && es@[0].lno == (0usize, 0usize)
            && (es@[0].variant matches ErrorVariant::ErrorCode(ErrorCode::CouldNotFindFunction { module, func })
            && module@ == join_spec(str_views(old(modules)@[to as int].0@), "::"@) && func@ == (*target.ident)@->Ident_0)),
    decreases fuel, 0nat,
{
    let from_name = clone_strings(&modules[from].0);
    let to_name = clone_strings(&modules[to].0);
    let target_name = ident_of(&target.ident);
    let target_alias: Option<String> = match &target.alias {
        Some(a) => Some(ident_of(a)),
        None => None,
    };
    if let Some(hit) = cached_impfunc(cache, &to_name, &target_name, &target_alias) {
        proof {
            let i = choose|i: int| 0 <= i < old(cache).impfunc@.len()
                && str_views((#[trigger] old(cache).impfunc@[i]).0@) == str_views(old(modules)@[to as int].0@)
                && old(cache).impfunc@[i].1@ == (*target.ident)@->Ident_0 && opt_view(old(cache).impfunc@[i].2) == alias_of(*target)
                && resolved_copy(old(cache).impfunc@[i].3, hit);
            lemma_keyed_copy(old(cache).impfunc@[i].3, hit, visible_name_of(*target));
        }
        return hit;
    }
    if fuel == 0 {
        return Err(too_deep(&from_name, &to_name));
    }
    catch_circular(&from_name, &to_name, history)?;
    let mut hist = clone_history(history);
    hist.push(clone_strings(&to_name));

    let ghost past = !impfunc_cached(*old(cache), str_views(old(modules)@[to as int].0@), (*target.ident)@->Ident_0, alias_of(*target))
        && fuel > 0 && !circular(str_views(old(modules)@[from as int].0@), str_views(old(modules)@[to as int].0@), history@);
    proof {
        assert(opt_view(target_alias) == alias_of(*target));
        assert forall|i: int| 0 <= i < old(cache).impfunc@.len() implies
            opt_str_eq(#[trigger] old(cache).impfunc@[i].2, target_alias) == (opt_view(old(cache).impfunc@[i].2) == alias_of(*target)) by {
            match (old(cache).impfunc@[i].2, target_alias) {
                (Some(x), Some(y)) => {
                    if opt_view(old(cache).impfunc@[i].2) == alias_of(*target) {
                        assert(Some(x@) == Some(y@));
                    }
                },
                _ => {},
            }
        }
    }
    assert(!impfunc_cached(*old(cache), str_views(old(modules)@[to as int].0@), (*target.ident)@->Ident_0, alias_of(*target)));
    assert(fuel > 0);
    assert(!circular(str_views(old(modules)@[from as int].0@), str_views(old(modules)@[to as int].0@), history@));
    assert(past);
    let visible = visible_name(target);
    let mut imports: Vec<(String, FuncImport)> = Vec::new();
    let mut errors: Vec<Error> = Vec::new();
    let mut new: Vec<Vec<String>> = Vec::new();

    // declared in `to`
    let names = decl_names(modules, to);
    if contains_str(&names, &target_name) {
        proof {
            let j = choose|j: int| 0 <= j < names@.len() && (#[trigger] names@[j])@ == target_name@;
            assert(declared_names(old(modules)@[to as int].1)[j] == names@[j]@);
        }
        imports.push(
            (visible, FuncImport { module: ModuleName::from(clone_strings(&to_name)), ident: FuncName::from(target_name.clone()) }),
        );
        let res = Ok((imports, new));
        remember_impfunc(cache, to_name, target_name, target_alias, &res);
        return res;
    }
    let ghost undeclared = !declared_names(old(modules)@[to as int].1).contains((*target.ident)@->Ident_0);
    assert(undeclared) by {
        if declared_names(old(modules)@[to as int].1).contains((*target.ident)@->Ident_0) {
            let j = choose|j: int| 0 <= j < declared_names(old(modules)@[to as int].1).len()
                && declared_names(old(modules)@[to as int].1)[j] == (*target.ident)@->Ident_0;
            assert(names@[j]@ == target_name@);
        }
    }

    // imported by name in `to`
    let imps = imports_of(modules, to);
    let mut k: usize = 0;
    while k < imps.len()
        invariant
            fuel > 0,
            from < modules@.len(),
            mods_wf(modules@),
            modules@ == old(modules)@,
            forall|j: int| 0 <= j < imps@.len() ==> imp_wf(#[trigger] imps@[j]),
            !impfunc_cached(*old(cache), str_views(old(modules)@[to as int].0@), (*target.ident)@->Ident_0, alias_of(*target))
                && !circular(str_views(old(modules)@[from as int].0@), str_views(old(modules)@[to as int].0@), history@),
            !declared_names(old(modules)@[to as int].1).contains((*target.ident)@->Ident_0),
            visible@ == visible_name_of(*target),
            cache_wf(*cache),
            str_views(to_name@) == str_views(old(modules)@[to as int].0@),
            target_name@ == (*target.ident)@->Ident_0,
            opt_view(target_alias) == alias_of(*target),
            imports@.len() == 0,
            imps@.len() == old(modules)@[to as int].1.imp@.len(),
            imps@.len() == 0 ==> errors@.len() == 0,
        decreases imps.len() - k,
    {
        assert(imp_wf(imps@[k as int]));
        match &imps[k].funcs {
            ImpFuncs::Funcs(fs) => {
                let mut j: usize = 0;
                while j < fs.len()
                    invariant
                        fuel > 0,
                        from < modules@.len(),
                        mods_wf(modules@),
                        modules@ == old(modules)@,
                        k < imps@.len(),
                        imps@.len() == old(modules)@[to as int].1.imp@.len(),
                        imp_wf(imps@[k as int]),
                        !impfunc_cached(*old(cache), str_views(old(modules)@[to as int].0@), (*target.ident)@->Ident_0, alias_of(*target))
                && !circular(str_views(old(modules)@[from as int].0@), str_views(old(modules)@[to as int].0@), history@),
                        !declared_names(old(modules)@[to as int].1).contains((*target.ident)@->Ident_0),
                        imps@[k as int].funcs == ImpFuncs::Funcs(*fs),
                        visible@ == visible_name_of(*target),
            cache_wf(*cache),
            str_views(to_name@) == str_views(old(modules)@[to as int].0@),
            target_name@ == (*target.ident)@->Ident_0,
            opt_view(target_alias) == alias_of(*target),
                    decreases fs.len() - j,
                {
                    proof {
                        lemma_imp_funcs(imps@[k as int], *fs);
                    }
                    if visible_name(&fs[j]) == target_name {
                        let (idx, created) = find_module(modules, lib, &imps[k])?;
                        if created {
                            new.push(clone_strings(&modules[idx].0));
                        }
                        let res = match resolve_impfunc(from, idx, &fs[j], modules, lib, &hist, cache, fuel - 1) {
                            Ok((ctx, nw)) => Ok((rekey(&ctx, &visible), nw)),
                            Err(es) => Err(es),
                        };
                        remember_impfunc(cache, to_name, target_name, target_alias, &res);
                        return res;
                    }
                    j = j + 1;
                }
            },
            ImpFuncs::Wildcard(_) => {},
        }
        k = k + 1;
    }

    // through a wildcard import of `to`
    let mut k: usize = 0;
    while k < imps.len()
        invariant
            fuel > 0,
            from < modules@.len(),
            mods_wf(modules@),
            modules@.len() >= old(modules)@.len(),
            forall|j: int| 0 <= j < old(modules)@.len() ==> modules@[j] == old(modules)@[j],
            forall|j: int| 0 <= j < imps@.len() ==> imp_wf(#[trigger] imps@[j]),
            !impfunc_cached(*old(cache), str_views(old(modules)@[to as int].0@), (*target.ident)@->Ident_0, alias_of(*target))
                && !circular(str_views(old(modules)@[from as int].0@), str_views(old(modules)@[to as int].0@), history@),
            !declared_names(old(modules)@[to as int].1).contains((*target.ident)@->Ident_0),
            visible@ == visible_name_of(*target),
            cache_wf(*cache),
            str_views(to_name@) == str_views(old(modules)@[to as int].0@),
            target_name@ == (*target.ident)@->Ident_0,
            opt_view(target_alias) == alias_of(*target),
            imports@.len() == 0,
            imps@.len() == old(modules)@[to as int].1.imp@.len(),
            imps@.len() == 0 ==> errors@.len() == 0,
        decreases imps.len() - k,
    {
        let imp = &imps[k];
        assert(imp_wf(imps@[k as int]));
        let is_wildcard = match &imp.funcs {
            ImpFuncs::Wildcard(_) => true,
            _ => false,
        };
        if is_wildcard {
            match find_module(modules, lib, imp) {
                Err(es) => {
                    append_errors(&mut errors, es);
                },
                Ok((idx, created)) => {
                    if created {
                        new.push(clone_strings(&modules[idx].0));
                    }
                    match resolve_wildcard(from, idx, modules, lib, &hist, cache, fuel - 1) {
                        Err(es) => {
                            append_errors(&mut errors, es);
                        },
                        Ok((ctx, imported)) => {
                            let mut m: usize = 0;
                            while m < imported.len()
                                decreases imported.len() - m,
                            {
                                new.push(clone_strings(&imported[m]));
                                m = m + 1;
                            }
                            match find_name(&ctx, &target_name) {
                                Some(at) => {
                                    imports.push((visible, ctx[at].1.copy()));
                                    let res = Ok((imports, new));
                                    remember_impfunc(cache, to_name, target_name, target_alias, &res);
                                    return res;
                                },
                                None => {},
                            }
                        },
                    }
                },
            }
        }
        k = k + 1;
    }
    errors.push(
        Error::new_from_code(None, ErrorCode::CouldNotFindFunction { module: join(&to_name, "::"), func: target_name.clone() }),
    );
    let res = Err(errors);
    remember_impfunc(cache, to_name, target_name, target_alias, &res);
    res
}

/// The resolved functions `ctx`, each bound to the name `name` instead.
fn rekey(ctx: &Vec<(String, FuncImport)>, name: &String) -> (r: Vec<(String, FuncImport)>)
    ensures
        r@.len() == ctx@.len(),
        forall|i: int| 0 <= i < r@.len() ==> (#[trigger] r@[i]).0@ == name@ && r@[i].1.module@ == ctx@[i].1.module@
            && r@[i].1.ident@ == ctx@[i].1.ident@,
{
    let mut r: Vec<(String, FuncImport)> = Vec::new();
    let mut i: usize = 0;
    while i < ctx.len()
        invariant
            i <= ctx@.len(),
            r@.len() == i,
            forall|j: int| 0 <= j < i ==> (#[trigger] r@[j]).0@ == name@ && r@[j].1.module@ == ctx@[j].1.module@
                && r@[j].1.ident@ == ctx@[j].1.ident@,
        decreases ctx.len() - i,
    {
        r.push((name.clone(), ctx[i].1.copy()));
        i = i + 1;
    }
    r
}

/// Keeps `res` in the cache as the result for the function `name` (with `alias`) of `to`.
fn remember_impfunc(cache: &mut Cache, to: Vec<String>, name: String, alias: Option<String>, res: &StdResult<Resolved>)
    requires
        cache_wf(*old(cache)),
        res matches Ok((ctx, _)) ==> keyed_by(ctx@, match opt_view(alias) {
            Some(a) => a,
            None => name@,
        }),
    ensures
        cache_wf(*final(cache)),
        final(cache).wildcard == old(cache).wildcard,
        final(cache).impfunc@.len() == old(cache).impfunc@.len() + 1,
        forall|i: int| 0 <= i < old(cache).impfunc@.len() ==> final(cache).impfunc@[i] == old(cache).impfunc@[i],
        final(cache).impfunc@.last().0 == to,
        final(cache).impfunc@.last().1 == name,
        final(cache).impfunc@.last().2 == alias,
        resolved_copy(*res, final(cache).impfunc@.last().3),
{
    let c = copy_resolved(res);
    let ghost n = match opt_view(alias) {
        Some(a) => a,
        None => name@,
    };
    proof {
        lemma_keyed_copy(*res, c, n);
    }
    let ghost e = (to, name, alias, c);
    assert(entry_name(e) == n);
    cache.impfunc.push((to, name, alias, c));
    assert forall|i: int| 0 <= i < cache.impfunc@.len() implies ((#[trigger] cache.impfunc@[i]).3 matches Ok((ctx, _))
        ==> keyed_by(ctx@, entry_name(cache.impfunc@[i]))) by {
        if i < old(cache).impfunc@.len() {
            assert(cache.impfunc@[i] == old(cache).impfunc@[i]);
        }
    }
}

/// The functions module `from` imports, each resolved to the module that declares it.
fn resolve(from: usize, modules: &mut Vec<(Vec<String>, Module)>, lib: &Directory, cache: &mut Cache, fuel: usize) -> (r: StdResult<Resolved>)
    requires
        from < old(modules)@.len(),
        mods_wf(old(modules)@),
        cache_wf(*old(cache)),
    ensures
        mods_wf(final(modules)@),
        cache_wf(*final(cache)),
        final(modules)@.len() >= old(modules)@.len(),
        forall|k: int| 0 <= k < old(modules)@.len() ==> final(modules)@[k] == old(modules)@[k],
        old(modules)@[from as int].1.imp@.len() == 0 ==> (r matches Ok((ctx, _)) && ctx@.len() == 0
            && final(modules)@ == old(modules)@ && *final(cache) == *old(cache)),
        old(modules)@[from as int].1.imp@.len() > 0 && fs_unknown(old(modules)@, old(modules)@[from as int].1.imp@[0]) ==> r is Err,
        r matches Ok((ctx, _)) ==> forall|k: int, e: int| 0 <= k < old(modules)@[from as int].1.imp@.len()
            && 0 <= e < imp_names(old(modules)@[from as int].1.imp@[k]).len()
            ==> has_key(ctx@, #[trigger] imp_names(old(modules)@[from as int].1.imp@[k])[e]),
        direct_imports(old(modules)@, from as int) && old(cache).impfunc@.len() == 0 && fuel > 0 ==> (r matches Ok((ctx, _))
            && binds_exactly(ctx@, imports_entries(old(modules)@[from as int].1.imp@)) && final(modules)@ == old(modules)@),
{
    let ghost direct = direct_imports(old(modules)@, from as int) && old(cache).impfunc@.len() == 0 && fuel > 0;
    let from_name = clone_strings(&modules[from].0);
    let empty: Vec<Vec<String>> = Vec::new();
    let mut context: Vec<(String, FuncImport)> = Vec::new();
    let mut new: Vec<Vec<String>> = Vec::new();
    let mut errors: Vec<Error> = Vec::new();
    let mut failed = false;
    let imps = imports_of(modules, from);
    let ghost orig = old(modules)@[from as int].1.imp@;
    let ghost ei = imports_entries(imps@);
    let ghost mut base: nat = 0;
    proof {
        lemma_imports_entries_eq(imps@, orig);
        lemma_imports_names_eq(imps@, orig);
        lemma_entries_names(imps@);
        assert(imps@.take(0) =~= Seq::<Imp>::empty());
    }
    let mut k: usize = 0;
    while k < imps.len()
        invariant
            ei == imports_entries(imps@),
            ei == imports_entries(orig),
            orig == old(modules)@[from as int].1.imp@,
            direct == (direct_imports(old(modules)@, from as int) && old(cache).impfunc@.len() == 0 && fuel > 0),
            direct ==> distinct_names(imports_names(imps@)),
            imports_names(imps@).len() == ei.len(),
            forall|i: int| 0 <= i < ei.len() ==> #[trigger] imports_names(imps@)[i] == ei[i].0,
            forall|j: int| 0 <= j < imps@.len() ==> imp_entries(#[trigger] imps@[j]) == imp_entries(orig[j]),
            forall|j: int| 0 <= j < imps@.len() ==> ((#[trigger] imps@[j]).funcs is Wildcard <==> orig[j].funcs is Wildcard),
            str_views(from_name@) == str_views(old(modules)@[from as int].0@),
            base == imports_entries(imps@.take(k as int)).len(),
            base <= ei.len(),
            empty@.len() == 0,
            direct ==> !failed && errors@.len() == 0 && modules@ == old(modules)@ && binds_exactly(context@, ei.take(base as int))
                && cache.impfunc@.len() == base
                && forall|i: int| 0 <= i < base ==> entry_name(#[trigger] cache.impfunc@[i]) == ei[i].0,
            from < modules@.len(),
            mods_wf(modules@),
            cache_wf(*cache),
            modules@.len() >= old(modules)@.len(),
            forall|j: int| 0 <= j < old(modules)@.len() ==> modules@[j] == old(modules)@[j],
            forall|j: int| 0 <= j < imps@.len() ==> imp_wf(#[trigger] imps@[j]),
            imps@.len() == 0 ==> errors@.len() == 0 && !failed && modules@ == old(modules)@ && context@.len() == 0
                && *cache == *old(cache),
            imps@.len() == old(modules)@[from as int].1.imp@.len(),
            forall|j: int| 0 <= j < imps@.len() ==> imp_path(#[trigger] imps@[j]) == imp_path(old(modules)@[from as int].1.imp@[j]),
            forall|j: int| 0 <= j < imps@.len() ==> imp_names(#[trigger] imps@[j]) == imp_names(old(modules)@[from as int].1.imp@[j]),
            k <= imps@.len(),
            k == 0 ==> modules@ == old(modules)@,
            k > 0 && imps@.len() > 0 && fs_unknown(old(modules)@, old(modules)@[from as int].1.imp@[0]) ==> failed,
            !failed ==> forall|k2: int, e: int| 0 <= k2 < k && 0 <= e < imp_names(imps@[k2]).len()
                ==> has_key(context@, #[trigger] imp_names(imps@[k2])[e]),
        decreases imps.len() - k,
    {
        let imp = &imps[k];
        assert(imp_wf(imps@[k as int]));
        let ghost names_k = imp_names(imps@[k as int]);
        let ghost ctx0 = context@;
        let ghost f0 = failed;
        let ghost ents = imp_entries(imps@[k as int]);
        proof {
            lemma_entries_take(imps@, k as int);
            lemma_entries_prefix(imps@, k as int + 1);
            assert(base + ents.len() <= ei.len());
            assert forall|e: int| 0 <= e < ents.len() implies #[trigger] ei[base + e] == ents[e] by {
                assert(imports_entries(imps@.take(k + 1))[base + e] == ents[e]);
            }
            if direct {
                assert(orig[k as int].funcs is Funcs);
                assert(exists|j: int| 0 <= j < old(modules)@.len() && str_views((#[trigger] old(modules)@[j]).0@) == imp_path(orig[k as int]));
            }
        }
        match find_module(modules, lib, imp) {
            Err(es) => {
                append_errors(&mut errors, es);
                failed = true;
            },
            Ok((idx, created)) => {
                if created {
                    new.push(clone_strings(&modules[idx].0));
                }
                let mut results: Vec<Resolved> = Vec::new();
                match &imp.funcs {
                    ImpFuncs::Funcs(funcs) => {
                        let mut j: usize = 0;
                        while j < funcs.len()
                            invariant
                                from < modules@.len(),
                                idx < modules@.len(),
                                mods_wf(modules@),
                                cache_wf(*cache),
                                modules@.len() >= old(modules)@.len(),
                                forall|m: int| 0 <= m < old(modules)@.len() ==> modules@[m] == old(modules)@[m],
                                imp_wf(*imp),
                                imp.funcs == ImpFuncs::Funcs(*funcs),
                                j <= funcs@.len(),
                                f0 ==> failed,
                                !failed ==> results@.len() == j && forall|j2: int| 0 <= j2 < j
                                    ==> keyed_by((#[trigger] results@[j2]).0@, visible_name_of(funcs@[j2])),
                                direct == (direct_imports(old(modules)@, from as int) && old(cache).impfunc@.len() == 0 && fuel > 0),
                                direct ==> distinct_names(imports_names(imps@)),
                                forall|i: int| 0 <= i < ei.len() ==> #[trigger] imports_names(imps@)[i] == ei[i].0,
                                imports_names(imps@).len() == ei.len(),
                                k < imps@.len(),
                                imps@.len() == orig.len(),
                                empty@.len() == 0,
                                *imp == imps@[k as int],
                                ents == imp_entries(imps@[k as int]),
                                ents == imp_entries(orig[k as int]),
                                orig == old(modules)@[from as int].1.imp@,
                                base + ents.len() <= ei.len(),
                                forall|e: int| 0 <= e < ents.len() ==> #[trigger] ei[base + e] == ents[e],
                                str_views(from_name@) == str_views(old(modules)@[from as int].0@),
                                str_views(modules@[idx as int].0@) == imp_path(*imp),
                                imp_path(*imp) == imp_path(orig[k as int]),
                                direct ==> !failed && errors@.len() == 0 && modules@ == old(modules)@
                                    && cache.impfunc@.len() == base + j
                                    && (forall|i: int| 0 <= i < base + j ==> entry_name(#[trigger] cache.impfunc@[i]) == ei[i].0)
                                    && forall|j2: int| 0 <= j2 < j ==> (#[trigger] results@[j2]).0@.len() == 1
                                        && results@[j2].0@[0].0@ == ei[base + j2].0 && results@[j2].0@[0].1.module@ == ei[base + j2].1
                                        && results@[j2].0@[0].1.ident@ == ei[base + j2].2,
                            decreases funcs.len() - j,
                        {
                            proof {
                                lemma_imp_funcs(*imp, *funcs);
                                if direct {
                                    let fj = funcs@[j as int];
                                    let ji = j as int;
                                    assert(ents[ji] == (visible_name_of(fj), imp_path(*imp), (*fj.ident)@->Ident_0));
                                    assert(0 <= ji < imp_entries(orig[k as int]).len());
                                    assert(declared_names((old(modules)@[idx as int]).1).contains((imp_entries(orig[k as int])[ji]).2));
                                    assert(declared_names(old(modules)@[idx as int].1).contains((*fj.ident)@->Ident_0));
                                    assert(!circular(str_views(modules@[from as int].0@), str_views(modules@[idx as int].0@), empty@));
                                    if impfunc_cached(*cache, str_views(modules@[idx as int].0@), (*fj.ident)@->Ident_0, alias_of(fj)) {
                                        let i = choose|i: int| 0 <= i < cache.impfunc@.len() && str_views((#[trigger] cache.impfunc@[i]).0@)
                                            == str_views(modules@[idx as int].0@) && cache.impfunc@[i].1@ == (*fj.ident)@->Ident_0
                                            && opt_view(cache.impfunc@[i].2) == alias_of(fj);
                                        assert(entry_name(cache.impfunc@[i]) == visible_name_of(fj));
                                        assert(imports_names(imps@)[i] == imports_names(imps@)[base + ji]);
                                        assert(false);
                                    }
                                }
                            }
                            let ghost c0 = *cache;
                            match resolve_impfunc(from, idx, &funcs[j], modules, lib, &empty, cache, fuel) {
                                Ok(res) => {
                                    proof {
                                        if direct {
                                            let fj = funcs@[j as int];
                                            assert(entry_name(cache.impfunc@.last()) == visible_name_of(fj));
                                            assert forall|i: int| 0 <= i < base + j + 1 implies entry_name(#[trigger] cache.impfunc@[i]) == ei[i].0 by {
                                                if i < base + j {
                                                    assert(cache.impfunc@[i] == c0.impfunc@[i]);
                                                } else {
                                                    assert(cache.impfunc@[i] == cache.impfunc@.last());
                                                }
                                            }
                                        }
                                    }
                                    results.push(res);
                                },
                                Err(es) => {
                                    append_errors(&mut errors, es);
                                    failed = true;
                                },
                            }
                            j = j + 1;
                        }
                        proof {
                            if !failed {
                                assert forall|j2: int| 0 <= j2 < names_k.len() implies keyed_by((#[trigger] results@[j2]).0@,
                                    names_k[j2]) by {
                                    assert(names_k[j2] == visible_name_of(funcs@[j2]));
                                }
                            }
                        }
                    },
                    ImpFuncs::Wildcard(_) => {
                        proof {
                            if direct {
                                assert(orig[k as int].funcs is Funcs);
                                assert(imps@[k as int].funcs is Wildcard);
                            }
                        }
                        match resolve_wildcard(from, idx, modules, lib, &empty, cache, fuel) {
                            Ok(res) => {
                                results.push(res);
                            },
                            Err(es) => {
                                append_errors(&mut errors, es);
                                failed = true;
                            },
                        }
                    },
                }
                assert(!failed ==> results@.len() >= names_k.len()
                    && forall|j2: int| 0 <= j2 < names_k.len() ==> keyed_by((#[trigger] results@[j2]).0@, names_k[j2]));
                let mut j: usize = 0;
                while j < results.len()
                    invariant
                        !failed ==> results@.len() >= names_k.len()
                            && forall|j2: int| 0 <= j2 < names_k.len() ==> keyed_by((#[trigger] results@[j2]).0@, names_k[j2]),
                        !failed ==> forall|n: Seq<char>| has_key(ctx0, n) ==> #[trigger] has_key(context@, n),
                        f0 ==> failed,
                        !failed ==> forall|j2: int| 0 <= j2 < j && j2 < names_k.len() ==> has_key(context@, #[trigger] names_k[j2]),
                        direct ==> distinct_names(imports_names(imps@)),
                        forall|i: int| 0 <= i < ei.len() ==> #[trigger] imports_names(imps@)[i] == ei[i].0,
                        imports_names(imps@).len() == ei.len(),
                        base + ents.len() <= ei.len(),
                        forall|e: int| 0 <= e < ents.len() ==> #[trigger] ei[base + e] == ents[e],
                        direct ==> modules@ == old(modules)@ && cache.impfunc@.len() == base + ents.len()
                            && (forall|i: int| 0 <= i < base + ents.len() ==> entry_name(#[trigger] cache.impfunc@[i]) == ei[i].0),
                        direct ==> !failed && errors@.len() == 0 && j <= results@.len() && results@.len() == ents.len()
                            && binds_exactly(context@, ei.take(base + j))
                            && forall|j2: int| 0 <= j2 < results@.len() ==> (#[trigger] results@[j2]).0@.len() == 1
                                && results@[j2].0@[0].0@ == ei[base + j2].0 && results@[j2].0@[0].1.module@ == ei[base + j2].1
                                && results@[j2].0@[0].1.ident@ == ei[base + j2].2,
                    decreases results.len() - j,
                {
                    let (res, imported) = &results[j];
                    let ghost nm = ei[base + j].0;
                    proof {
                        if direct {
                            assert(res@ == results@[j as int].0@);
                            assert forall|i: int| 0 <= i < base + j implies ei[i].0 != nm by {
                                assert(imports_names(imps@)[i] != imports_names(imps@)[base + j]);
                            }
                            assert forall|i: int| 0 <= i < context@.len() implies (#[trigger] context@[i]).0@ != nm by {
                                assert(context@[i].0@ == ei.take(base + j)[i].0);
                                assert(ei.take(base + j)[i] == ei[i]);
                            }
                        }
                    }
                    let mut m: usize = 0;
                    while m < imported.len()
                        invariant
                            direct ==> !failed && errors@.len() == 0 && res@.len() == 1 && res@[0].0@ == nm
                                && res@[0].1.module@ == ei[base + j].1 && res@[0].1.ident@ == ei[base + j].2
                                && context@.len() == base + j && binds_exactly(context@, ei.take(base + j))
                                && forall|i: int| 0 <= i < context@.len() ==> (#[trigger] context@[i]).0@ != nm,
                        decreases imported.len() - m,
                    {
                        new.push(clone_strings(&imported[m]));
                        m = m + 1;
                    }
                    let mut overlapping = false;
                    let mut m: usize = 0;
                    while m < res.len()
                        invariant
                            direct ==> !overlapping && errors@.len() == 0 && res@.len() == 1 && res@[0].0@ == nm
                                && context@.len() == base + j && forall|i: int| 0 <= i < context@.len() ==> (#[trigger] context@[i]).0@ != nm,
                        decreases res.len() - m,
                    {
                        if find_name(&context, &res[m].0).is_some() {
                            overlapping = true;
                            errors.push(
                                Error::new_from_code(
                                    Some(imp.lno),
                                    ErrorCode::FunctionNameCollision {
                                        module: join(&from_name, "::"),
                                        func: res[m].0.clone(),
                                        count: None,
                                    },
                                ),
                            );
                        }
                        m = m + 1;
                    }
                    if overlapping {
                        failed = true;
                    } else {
                        let ghost ctx1 = context@;
                        let mut m: usize = 0;
                        while m < res.len()
                            invariant
                                m <= res@.len(),
                                direct ==> res@.len() == 1 && res@[0].0@ == nm && res@[0].1.module@ == ei[base + j].1
                                    && res@[0].1.ident@ == ei[base + j].2
                                    && (forall|i: int| 0 <= i < ctx1.len() ==> (#[trigger] ctx1[i]).0@ != nm)
                                    && (m == 0 ==> context@ == ctx1)
                                    && (m == 1 ==> context@ == ctx1.push(context@.last()) && context@.last().0@ == nm
                                        && context@.last().1.module@ == ei[base + j].1 && context@.last().1.ident@ == ei[base + j].2),
                                forall|n: Seq<char>| has_key(ctx1, n) ==> #[trigger] has_key(context@, n),
                                forall|m2: int| 0 <= m2 < m ==> has_key(context@, (#[trigger] res@[m2]).0@),
                            decreases res.len() - m,
                        {
                            let ghost before = context@;
                            match find_name(&context, &res[m].0) {
                                Some(at) => {
                                    context.set(at, (res[m].0.clone(), res[m].1.copy()));
                                    proof {
                                        lemma_keys_set(before, context@, at as int);
                                        assert(context@[at as int].0@ == res@[m as int].0@);
                                    }
                                },
                                None => {
                                    context.push((res[m].0.clone(), res[m].1.copy()));
                                    proof {
                                        lemma_keys_push(before, context@);
                                        assert(context@[before.len() as int].0@ == res@[m as int].0@);
                                    }
                                },
                            }
                            m = m + 1;
                        }
                        proof {
                            if !failed && j < names_k.len() {
                                assert(res@[0].0@ == names_k[j as int]);
                                assert(has_key(context@, res@[0].0@));
                            }
                            if direct {
                                assert(context@ =~= ctx1.push(context@.last()));
                                assert forall|i: int| 0 <= i < context@.len() implies (#[trigger] context@[i]).0@ == ei.take(base + j + 1)[i].0
                                    && context@[i].1.module@ == ei.take(base + j + 1)[i].1
                                    && context@[i].1.ident@ == ei.take(base + j + 1)[i].2 by {
                                    if i < ctx1.len() {
                                        assert(context@[i] == ctx1[i]);
                                        assert(ei.take(base + j)[i] == ei[i]);
                                    }
                                }
                            }
                        }
                    }
                    j = j + 1;
                }
            },
        }
        proof {
            if !failed {
                assert forall|k2: int, e: int| 0 <= k2 < k + 1 && 0 <= e < imp_names(imps@[k2]).len()
                    implies has_key(context@, #[trigger] imp_names(imps@[k2])[e]) by {
                    if k2 < k {
                        assert(has_key(ctx0, imp_names(imps@[k2])[e]));
                    } else {
                        assert(imp_names(imps@[k2])[e] == names_k[e]);
                    }
                }
            }
        }
        proof {
            base = base + ents.len();
        }
        k = k + 1;
    }
    proof {
        if !failed {
            assert forall|k2: int, e: int| 0 <= k2 < old(modules)@[from as int].1.imp@.len()
                && 0 <= e < imp_names(old(modules)@[from as int].1.imp@[k2]).len()
                implies has_key(context@, #[trigger] imp_names(old(modules)@[from as int].1.imp@[k2])[e]) by {
                assert(imp_names(imps@[k2]) == imp_names(old(modules)@[from as int].1.imp@[k2]));
            }
        }
    }
    proof {
        if direct {
            assert(imps@.take(imps@.len() as int) =~= imps@);
            assert(ei.take(base as int) =~= ei);
        }
    }
    if failed || errors.len() > 0 {
        Err(errors)
    } else {
        Ok((context, new))
    }
}

// The module map

/// A module context of imports only.
fn context_of(entries: &Vec<(String, FuncImport)>) -> (r: ModuleContext)
    ensures
        forall|f: CompileFlags| r.wf(f),
        r.0@.len() == entries@.len(),
        forall|j: int| 0 <= j < entries@.len() ==> (#[trigger] r.0@[j]).0@ == entries@[j].0@
            && (r.0@[j].1 matches FuncContext::Import(i) && i.module@ == entries@[j].1.module@ && i.ident@ == entries@[j].1.ident@),
{
    let mut v: Vec<(FuncName, FuncContext)> = Vec::new();
    let mut i: usize = 0;
    while i < entries.len()
        invariant
            i <= entries@.len(),
            v@.len() == i,
            forall|j: int| 0 <= j < i ==> (#[trigger] v@[j]).0@ == entries@[j].0@
                && (v@[j].1 matches FuncContext::Import(im) && im.module@ == entries@[j].1.module@ && im.ident@ == entries@[j].1.ident@),
            forall|j: int| 0 <= j < v@.len() ==> (#[trigger] v@[j]).1 is Import,
        decreases entries.len() - i,
    {
        v.push((FuncName::from(entries[i].0.clone()), FuncContext::Import(entries[i].1.copy())));
        i = i + 1;
    }
    let r = ModuleContext(v);
    assert forall|f: CompileFlags, j: int| 0 <= j < r.0@.len() implies #[trigger] func_ctx_wf(r.0@[j].1, f) by {
        assert(r.0@[j].1 is Import);
    }
    r
}

/// Whether two error variants are equal.
fn same_variant(a: &ErrorVariant, b: &ErrorVariant) -> (r: bool)
    ensures
        r == variant_eq(*a, *b),
{
    match (a, b) {
        (ErrorVariant::Message(x), ErrorVariant::Message(y)) => *x == *y,
        (ErrorVariant::ErrorCode(x), ErrorVariant::ErrorCode(y)) => same_code(x, y),
        (ErrorVariant::Rust(crate::errors::RustError::Io(x)), ErrorVariant::Rust(crate::errors::RustError::Io(y))) => *x == *y,
        (ErrorVariant::Parse(x), ErrorVariant::Parse(y)) => same_parse(x, y),
        _ => false,
    }
}

fn same_strings(a: &Vec<String>, b: &Vec<String>) -> (r: bool)
    ensures
        r == (str_views(a@) == str_views(b@)),
{
    names_eq(a, b)
}

fn same_code(a: &ErrorCode, b: &ErrorCode) -> (r: bool)
    ensures
        r == code_eq(*a, *b),
{
    match (a, b) {
        (ErrorCode::CouldNotFindModule { module: m1 }, ErrorCode::CouldNotFindModule { module: m2 }) => *m1 == *m2,
        (
            ErrorCode::CouldNotFindFunction { module: m1, func: f1 },
            ErrorCode::CouldNotFindFunction { module: m2, func: f2 },
        ) => *m1 == *m2 && *f1 == *f2,
        (
            ErrorCode::CircularImport { message: s1, module: m1, history: h1, origin: o1 },
            ErrorCode::CircularImport { message: s2, module: m2, history: h2, origin: o2 },
        ) => *s1 == *s2 && *m1 == *m2 && same_strings(h1, h2) && *o1 == *o2,
        (
            ErrorCode::FunctionNameCollision { module: m1, func: f1, count: c1 },
            ErrorCode::FunctionNameCollision { module: m2, func: f2, count: c2 },
        ) => *m1 == *m2 && *f1 == *f2 && *c1 == *c2,
        (
            ErrorCode::MultipleModuleCandidates { module: m1, count: c1 },
            ErrorCode::MultipleModuleCandidates { module: m2, count: c2 },
        ) => *m1 == *m2 && *c1 == *c2,
        (
            ErrorCode::UnexpectedExprType { message: s1, expected: e1, got: g1 },
            ErrorCode::UnexpectedExprType { message: s2, expected: e2, got: g2 },
        ) => *s1 == *s2 && *e1 == *e2 && *g1 == *g2,
        (
            ErrorCode::FunctionRecursionDetected { stack: s1, module: m1, func: f1, count: c1 },
            ErrorCode::FunctionRecursionDetected { stack: s2, module: m2, func: f2, count: c2 },
        ) => same_strings(s1, s2) && *m1 == *m2 && *f1 == *f2 && *c1 == *c2,
        (
            ErrorCode::FunctionUnexpectedNumberOfArguments { module: m1, func: f1, expected: e1, got: g1 },
            ErrorCode::FunctionUnexpectedNumberOfArguments { module: m2, func: f2, expected: e2, got: g2 },
        ) => *m1 == *m2 && *f1 == *f2 && *e1 == *e2 && *g1 == *g2,
        (ErrorCode::StrictModeViolation { violation: v1 }, ErrorCode::StrictModeViolation { violation: v2 }) => *v1 == *v2,
        _ => false,
    }
}

fn same_parse(a: &PestErrorInfo, b: &PestErrorInfo) -> (r: bool)
    ensures
        r == parse_info_eq(*a, *b),
    decreases a,
{
    match (a, b) {
        (
            PestErrorInfo::Error { variant: v1, location: l1, line_col: c1 },
            PestErrorInfo::Error { variant: v2, location: l2, line_col: c2 },
        ) => same_parse(v1, v2) && same_parse(l1, l2) && same_parse(c1, c2),
        (
            PestErrorInfo::ErrorVariantParsingError { positives: p1, negatives: n1 },
            PestErrorInfo::ErrorVariantParsingError { positives: p2, negatives: n2 },
        ) => same_strings(p1, p2) && same_strings(n1, n2),
        (PestErrorInfo::ErrorVariantCustomError(x), PestErrorInfo::ErrorVariantCustomError(y)) => *x == *y,
        (PestErrorInfo::InputLocation(x), PestErrorInfo::InputLocation(y)) => *x == *y,
        (PestErrorInfo::LineColLocation(x), PestErrorInfo::LineColLocation(y)) => x.0 == y.0 && x.1 == y.1,
        _ => false,
    }
}

/// The errors, each variant once (its first occurrence).
fn unique_variants(errors: Vec<Error>) -> (r: Vec<Error>)
    ensures
        r@ == unique_from(errors@, seq![]),
        errors@.len() > 0 ==> r@.len() > 0,
{
    let mut r: Vec<Error> = Vec::new();
    let mut errors = errors;
    let ghost all = errors@;
    let n = errors.len();
    proof {
        lemma_unique_from_grows(all, seq![]);
    }
    while errors.len() > 0
        invariant
            errors@.len() <= n,
            unique_from(all, seq![]) == unique_from(errors@, r@),
            n == all.len(),
            all.len() > 0 ==> unique_from(all, seq![]).len() > 0,
        decreases errors.len(),
    {
        let ghost before = errors@;
        let e = errors.remove(0);
        assert(errors@ =~= before.drop_first());
        let mut seen = false;
        let mut k: usize = 0;
        while k < r.len()
            invariant
                k <= r@.len(),
                seen == exists|j: int| 0 <= j < k && variant_eq(#[trigger] r@[j].variant, e.variant),
            decreases r.len() - k,
        {
            if same_variant(&r[k].variant, &e.variant) {
                seen = true;
            }
            k = k + 1;
        }
        if !seen {
            r.push(e);
        }
    }
    r
}

/// The declared and imported names of a module that occur more than once (imports by
/// wildcard are not counted), each with its number of occurrences.
/// Imports with the same names give the same names.
proof fn lemma_imports_names_eq(a: Seq<Imp>, b: Seq<Imp>)
    requires
        a.len() == b.len(),
        forall|k: int| 0 <= k < a.len() ==> imp_names(#[trigger] a[k]) == imp_names(b[k]),
    ensures
        imports_names(a) == imports_names(b),
    decreases a.len(),
{
    if a.len() > 0 {
        assert forall|k: int| 0 <= k < a.drop_last().len() implies imp_names(#[trigger] a.drop_last()[k]) == imp_names(b.drop_last()[k]) by {
            assert(a.drop_last()[k] == a[k]);
            assert(b.drop_last()[k] == b[k]);
        }
        lemma_imports_names_eq(a.drop_last(), b.drop_last());
        assert(imp_names(a.last()) == imp_names(b.last()));
    }
}

/// Imports that bind the same give the same bindings.
proof fn lemma_imports_entries_eq(a: Seq<Imp>, b: Seq<Imp>)
    requires
        a.len() == b.len(),
        forall|k: int| 0 <= k < a.len() ==> imp_entries(#[trigger] a[k]) == imp_entries(b[k]),
    ensures
        imports_entries(a) == imports_entries(b),
    decreases a.len(),
{
    if a.len() > 0 {
        assert forall|k: int| 0 <= k < a.drop_last().len() implies imp_entries(#[trigger] a.drop_last()[k]) == imp_entries(b.drop_last()[k]) by {
            assert(a.drop_last()[k] == a[k]);
            assert(b.drop_last()[k] == b[k]);
        }
        lemma_imports_entries_eq(a.drop_last(), b.drop_last());
        assert(imp_entries(a.last()) == imp_entries(b.last()));
    }
}

/// The names the imports give are the names of their bindings.
proof fn lemma_entries_names(a: Seq<Imp>)
    ensures
        imports_names(a).len() == imports_entries(a).len(),
        forall|i: int| 0 <= i < imports_names(a).len() ==> #[trigger] imports_names(a)[i] == imports_entries(a)[i].0,
    decreases a.len(),
{
    if a.len() > 0 {
        lemma_entries_names(a.drop_last());
        let x = a.last();
        assert(imp_names(x).len() == imp_entries(x).len());
        assert forall|k: int| 0 <= k < imp_names(x).len() implies imp_names(x)[k] == imp_entries(x)[k].0 by {
        }
        let p = imports_names(a.drop_last());
        let q = imports_entries(a.drop_last());
        assert forall|i: int| 0 <= i < imports_names(a).len() implies #[trigger] imports_names(a)[i] == imports_entries(a)[i].0 by {
            if i < p.len() {
                assert(imports_names(a)[i] == p[i]);
                assert(imports_entries(a)[i] == q[i]);
            } else {
                assert(imports_names(a)[i] == imp_names(x)[i - p.len()]);
                assert(imports_entries(a)[i] == imp_entries(x)[i - q.len()]);
            }
        }
    }
}

/// The bindings of the first `k + 1` imports are those of the first `k`, then those of import `k`.
proof fn lemma_entries_take(a: Seq<Imp>, k: int)
    requires
        0 <= k < a.len(),
    ensures
        imports_entries(a.take(k + 1)) == imports_entries(a.take(k)) + imp_entries(a[k]),
{
    assert(a.take(k + 1).drop_last() =~= a.take(k));
    assert(a.take(k + 1).last() == a[k]);
}

/// The bindings of the first `k` imports begin the bindings of all.
proof fn lemma_entries_prefix(a: Seq<Imp>, k: int)
    requires
        0 <= k <= a.len(),
    ensures
        imports_entries(a.take(k)).len() <= imports_entries(a).len(),
        forall|i: int| 0 <= i < imports_entries(a.take(k)).len() ==> #[trigger] imports_entries(a.take(k))[i] == imports_entries(a)[i],
    decreases a.len(),
{
    if k == a.len() {
        assert(a.take(k) =~= a);
    } else {
        assert(a.take(k) =~= a.drop_last().take(k));
        lemma_entries_prefix(a.drop_last(), k);
        let q = imports_entries(a.drop_last());
        assert forall|i: int| 0 <= i < q.len() implies #[trigger] imports_entries(a)[i] == q[i] by {
        }
    }
}

/// The names of the first `k + 1` imports are those of the first `k`, then those of import `k`.
proof fn lemma_imports_names_take(a: Seq<Imp>, k: int)
    requires
        0 <= k < a.len(),
    ensures
        imports_names(a.take(k + 1)) == imports_names(a.take(k)) + imp_names(a[k]),
{
    assert(a.take(k + 1).drop_last() =~= a.take(k));
    assert(a.take(k + 1).last() == a[k]);
}

/// Each module is checked for names it gives two functions (declared, or imported by
/// name); every such name is reported once, with how often it occurs.
fn basic_collision_check(modules: &Vec<(Vec<String>, Module)>) -> (r: StdResult<()>)
    requires
        mods_wf(modules@),
    ensures
        all_bare(modules@) ==> r is Ok,
        r is Ok <==> forall|i: int| 0 <= i < modules@.len() ==> distinct_names(known_names(#[trigger] modules@[i].1)),
        r matches Err(es) ==> es@.len() > 0,
{
    let mut errors: Vec<Error> = Vec::new();
    let mut i: usize = 0;
    while i < modules.len()
        invariant
            mods_wf(modules@),
            i <= modules@.len(),
            errors@.len() == 0 <==> forall|i2: int| 0 <= i2 < i ==> distinct_names(known_names(#[trigger] modules@[i2].1)),
        decreases modules.len() - i,
    {
        let ghost m = modules@[i as int].1;
        let ghost decls = Seq::new(m.decl@.len(), |k: int| (*m.decl@[k].ident)@->Ident_0);
        let mut names = decl_names(modules, i);
        let imps = imports_of(modules, i);
        proof {
            assert(crate::vars::name_views(names@) =~= decls);
            assert(imps@.take(0) =~= Seq::<Imp>::empty());
            assert(decls + imports_names(imps@.take(0)) =~= decls);
        }
        let mut k: usize = 0;
        while k < imps.len()
            invariant
                forall|j: int| 0 <= j < imps@.len() ==> imp_wf(#[trigger] imps@[j]),
                k <= imps@.len(),
                crate::vars::name_views(names@) == decls + imports_names(imps@.take(k as int)),
            decreases imps.len() - k,
        {
            assert(imp_wf(imps@[k as int]));
            proof {
                lemma_imports_names_take(imps@, k as int);
            }
            match &imps[k].funcs {
                ImpFuncs::Funcs(fs) => {
                    proof {
                        lemma_imp_funcs(imps@[k as int], *fs);
                    }
                    let ghost base = crate::vars::name_views(names@);
                    let ghost all = imp_names(imps@[k as int]);
                    assert(all == Seq::new(fs@.len(), |x: int| visible_name_of(fs@[x])));
                    assert(base + all.take(0) =~= base);
                    let mut j: usize = 0;
                    while j < fs.len()
                        invariant
                            forall|m2: int| 0 <= m2 < fs@.len() ==> imp_func_wf(#[trigger] fs@[m2]),
                            j <= fs@.len(),
                            all == Seq::new(fs@.len(), |x: int| visible_name_of(fs@[x])),
                            crate::vars::name_views(names@) == base + all.take(j as int),
                        decreases fs.len() - j,
                    {
                        let n = visible_name(&fs[j]);
                        let ghost before = names@;
                        names.push(n);
                        proof {
                            assert(all[j as int] == visible_name_of(fs@[j as int]));
                            assert(n@ == all[j as int]);
                            assert(crate::vars::name_views(names@) =~= crate::vars::name_views(before).push(all[j as int]));
                            assert(all.take(j as int + 1) =~= all.take(j as int).push(all[j as int]));
                            assert(crate::vars::name_views(names@) =~= base + all.take(j as int + 1));
                        }
                        j = j + 1;
                    }
                    assert(all.take(fs@.len() as int) =~= all);
                },
                ImpFuncs::Wildcard(_) => {
                    assert(imp_names(imps@[k as int]) =~= Seq::<Seq<char>>::empty());
                    assert(crate::vars::name_views(names@) =~= decls + imports_names(imps@.take(k as int + 1)));
                },
            }
            k = k + 1;
        }
        let ghost nv = crate::vars::name_views(names@);
        proof {
            assert(imps@.take(imps@.len() as int) =~= imps@);
            lemma_imports_names_eq(imps@, m.imp@);
            assert(nv == known_names(m));
        }
        let ghost e0 = errors@.len();
        let mut k: usize = 0;
        while k < names.len()
            invariant
                i < modules@.len(),
                nv == crate::vars::name_views(names@),
                k <= names@.len(),
                errors@.len() >= e0,
                (errors@.len() > e0) <==> exists|a: int, b: int| 0 <= a < k && a < b < nv.len() && #[trigger] nv[a] == #[trigger] nv[b],
            decreases names.len() - k,
        {
            let mut first = true;
            let mut j: usize = 0;
            while j < k && j < names.len()
                invariant
                    k < names@.len(),
                    nv == crate::vars::name_views(names@),
                    j <= k,
                    first == forall|j2: int| 0 <= j2 < j ==> nv[j2] != nv[k as int],
                decreases k - j,
            {
                assert(nv[j as int] == names@[j as int]@);
                assert(nv[k as int] == names@[k as int]@);
                if names[j] == names[k] {
                    first = false;
                }
                j = j + 1;
            }
            let ghost has_later = exists|b: int| k < b < nv.len() && nv[b] == nv[k as int];
            if first {
                let mut count: usize = 0;
                let mut j: usize = 0;
                while j < names.len()
                    invariant
                        count <= j,
                        k < names@.len(),
                        j <= names@.len(),
                        nv == crate::vars::name_views(names@),
                        first == forall|j2: int| 0 <= j2 < k ==> nv[j2] != nv[k as int],
                        first,
                        j > k ==> count >= 1,
                        (exists|b: int| k < b < j && nv[b] == nv[k as int]) ==> count >= 2,
                        count <= (if j > k { 1int } else { 0int }) || exists|b: int| 0 <= b < j && b != k && nv[b] == nv[k as int],
                    decreases names.len() - j,
                {
                    assert(nv[j as int] == names@[j as int]@);
                    assert(nv[k as int] == names@[k as int]@);
                    if names[j] == names[k] {
                        count = count + 1;
                    }
                    j = j + 1;
                }
                proof {
                    if count > 1 {
                        let b = choose|b: int| 0 <= b < nv.len() && b != k && nv[b] == nv[k as int];
                        assert(!(b < k));
                        assert(has_later);
                    }
                    if has_later {
                        let b = choose|b: int| k < b < nv.len() && nv[b] == nv[k as int];
                        assert(count >= 2);
                    }
                }
                if count > 1 {
                    errors.push(
                        Error::new(
                            (0, 0),
                            ErrorVariant::ErrorCode(
                                ErrorCode::FunctionNameCollision {
                                    module: join(&modules[i].0, "::"),
                                    func: names[k].clone(),
                                    count: Some(count),
                                },
                            ),
                        ),
                    );
                }
            } else {
                proof {
                    let j0 = choose|j2: int| 0 <= j2 < k && nv[j2] == nv[k as int];
                    if has_later {
                        let b = choose|b: int| k < b < nv.len() && nv[b] == nv[k as int];
                        assert(nv[j0] == nv[b]);
                    }
                }
            }
            proof {
                if exists|a: int, b: int| 0 <= a < k + 1 && a < b < nv.len() && #[trigger] nv[a] == #[trigger] nv[b] {
                    let (a, b) = choose|a: int, b: int| 0 <= a < k + 1 && a < b < nv.len() && #[trigger] nv[a] == #[trigger] nv[b];
                    if a == k {
                        assert(has_later);
                    }
                }
            }
            k = k + 1;
        }
        proof {
            if errors@.len() > e0 {
                let (a, b) = choose|a: int, b: int| 0 <= a < nv.len() && a < b < nv.len() && #[trigger] nv[a] == #[trigger] nv[b];
                assert(!distinct_names(known_names(m)));
            } else {
                assert(distinct_names(known_names(m)));
            }
            assert(m == modules@[i as int].1);
        }
        i = i + 1;
    }
    proof {
        if all_bare(modules@) {
            assert forall|i2: int| 0 <= i2 < modules@.len() implies distinct_names(known_names(#[trigger] modules@[i2].1)) by {
                assert(bare(modules@[i2].1));
                assert(imports_names(modules@[i2].1.imp@) =~= Seq::<Seq<char>>::empty()) by {
                    assert(modules@[i2].1.imp@.len() == 0);
                }
                assert(known_names(modules@[i2].1).len() == 0);
            }
        }
    }
    if errors.len() > 0 {
        Err(errors)
    } else {
        Ok(())
    }
}

/// `err` reports that the declaration `d` of the module `module` collides with a name
/// already known there.
pub open spec fn collision_at(err: Error, module: Seq<String>, d: FuncDecl) -> bool {
    &&& err.lno == d.lno
    &&& err.variant matches ErrorVariant::ErrorCode(ErrorCode::FunctionNameCollision { module: m, func, count })
        && m@ == join_spec(str_views(module), "::"@) && func@ == (*d.ident)@->Ident_0 && count is None
}

/// The module `key` knows the function `d` declares first as that declaration.
pub open spec fn decl_bound(m: Seq<(ModuleName, ModuleContext)>, key: Seq<Seq<char>>, d: FuncDecl) -> bool {
    exists|p: int| #[trigger] map_first(m, key, p) && exists|e: int| #[trigger] ctx_first(m[p].1, (*d.ident)@->Ident_0, e)
        && same_fc(m[p].1.0@[e].1, FuncContext::Func(d))
}

/// The declarations added after the entries of `ctx0`, under new distinct names, are each
/// the first entry of their name.
proof fn lemma_decls_first(c: ModuleContext, ctx0: ModuleContext, decls: Seq<FuncDecl>, names: Seq<Seq<char>>, a: int)
    requires
        0 <= a < decls.len(),
        names.len() == decls.len(),
        distinct_names(names),
        ctx_extends(c, ctx0),
        forall|b: int| 0 <= b < names.len() ==> !ctx_keys(ctx0).contains(#[trigger] names[b]),
        forall|b: int| 0 <= b < decls.len() ==> (#[trigger] c.0@[ctx0.0@.len() + b]).0@ == names[b]
            && same_fc(c.0@[ctx0.0@.len() + b].1, FuncContext::Func(decls[b])),
        c.0@.len() >= ctx0.0@.len() + decls.len(),
    ensures
        ctx_first(c, names[a], ctx0.0@.len() + a),
        same_fc(c.0@[ctx0.0@.len() + a].1, FuncContext::Func(decls[a])),
{
    let n0 = ctx0.0@.len() as int;
    assert(c.0@[n0 + a].0@ == names[a]);
    assert forall|e: int| 0 <= e < n0 + a implies c.0@[e].0@ != names[a] by {
        if e < n0 {
            assert(c.0@[e].0@ == ctx0.0@[e].0@);
            assert(ctx_keys(ctx0)[e] == ctx0.0@[e].0@);
            if c.0@[e].0@ == names[a] {
                assert(ctx_keys(ctx0).contains(names[a]));
            }
        } else {
            assert(c.0@[n0 + (e - n0)].0@ == names[e - n0]);
        }
    }
}

/// After module `i` gets the context `c1`, the declarations of the modules up to `i` are
/// bound where their modules first stand.
proof fn lemma_insert_bound(m0: Seq<(ModuleName, ModuleContext)>, m1: Seq<(ModuleName, ModuleContext)>, key: Seq<Seq<char>>,
    c1: ModuleContext, ctx0: ModuleContext, ms: Seq<(Vec<String>, Module)>, i: int, names: Seq<Seq<char>>)
    requires
        0 <= i < ms.len(),
        key == str_views(ms[i].0@),
        forall|x: int, y: int| 0 <= x < y < ms.len() ==> str_views((#[trigger] ms[x]).0@) != str_views((#[trigger] ms[y]).0@),
        forall|k2: Seq<Seq<char>>, p: int| k2 != key ==> (#[trigger] map_first(m1, k2, p) <==> map_first(m0, k2, p)),
        forall|k2: Seq<Seq<char>>, p: int| k2 != key && #[trigger] map_first(m0, k2, p) ==> m1[p] == m0[p],
        exists|p: int| #[trigger] map_first(m1, key, p) && m1[p].1 == c1,
        forall|j: int, a: int| 0 <= j < i && 0 <= a < ms[j].1.decl@.len()
            ==> decl_bound(m0, str_views(ms[j].0@), #[trigger] ms[j].1.decl@[a]),
        names == declared_names(ms[i].1),
        distinct_names(names),
        ctx_extends(c1, ctx0),
        forall|b: int| 0 <= b < names.len() ==> !ctx_keys(ctx0).contains(#[trigger] names[b]),
        forall|b: int| 0 <= b < names.len() ==> (#[trigger] c1.0@[ctx0.0@.len() + b]).0@ == names[b]
            && same_fc(c1.0@[ctx0.0@.len() + b].1, FuncContext::Func(ms[i].1.decl@[b])),
        c1.0@.len() >= ctx0.0@.len() + names.len(),
    ensures
        forall|j: int, a: int| 0 <= j < i + 1 && 0 <= a < ms[j].1.decl@.len()
            ==> decl_bound(m1, str_views(ms[j].0@), #[trigger] ms[j].1.decl@[a]),
{
    assert forall|j: int, a: int| 0 <= j < i + 1 && 0 <= a < ms[j].1.decl@.len()
        implies decl_bound(m1, str_views(ms[j].0@), #[trigger] ms[j].1.decl@[a]) by {
        let d = ms[j].1.decl@[a];
        if j < i {
            let k2 = str_views(ms[j].0@);
            assert(str_views((ms[j]).0@) != str_views((ms[i]).0@));
            assert(decl_bound(m0, k2, d));
            let p = choose|p: int| #[trigger] map_first(m0, k2, p) && exists|e: int| #[trigger] ctx_first(m0[p].1, (*d.ident)@->Ident_0, e)
                && same_fc(m0[p].1.0@[e].1, FuncContext::Func(d));
            assert(map_first(m1, k2, p));
            assert(m1[p] == m0[p]);
        } else {
            let p = choose|p: int| #[trigger] map_first(m1, key, p) && m1[p].1 == c1;
            assert(names.len() == ms[i].1.decl@.len());
            lemma_decls_first(c1, ctx0, ms[i].1.decl@, names, a);
            assert(names[a] == (*d.ident)@->Ident_0);
            assert(ctx_first(m1[p].1, (*d.ident)@->Ident_0, ctx0.0@.len() + a));
        }
    }
}

/// Each module declares distinct names, none known in it yet in `map`, and no two modules
/// have one name.
pub open spec fn insertable(ms: Seq<(Vec<String>, Module)>, map: Seq<(ModuleName, ModuleContext)>) -> bool {
    &&& forall|i: int| 0 <= i < ms.len() ==> distinct_names(declared_names((#[trigger] ms[i]).1))
    &&& forall|i: int, a: int| 0 <= i < ms.len() && 0 <= a < declared_names(ms[i].1).len()
        ==> !map_has(map, str_views(ms[i].0@), #[trigger] declared_names(ms[i].1)[a])
    &&& forall|i: int, j: int| 0 <= i < j < ms.len() ==> str_views((#[trigger] ms[i]).0@) != str_views((#[trigger] ms[j]).0@)
}

/// Adds the declared functions of every module to its context; a name already known in the
/// module is an error.
#[verifier::rlimit(80)]
fn insert_funcs(modules: &Vec<(Vec<String>, Module)>, map: &mut ModuleMap) -> (r: StdResult<()>)
    requires
        mods_wf(modules@),
        forall|f: CompileFlags| old(map).wf(f),
    ensures
        forall|f: CompileFlags| final(map).wf(f),
        all_bare(modules@) ==> r is Ok,
        (exists|i: int| 0 <= i < modules@.len() && !distinct_names(declared_names((#[trigger] modules@[i]).1))) ==> r is Err,
        forall|i: int, a: int| 0 <= i < modules@.len() && 0 <= a < declared_names(modules@[i].1).len()
            ==> map_has(final(map).0@, str_views(modules@[i].0@), #[trigger] declared_names(modules@[i].1)[a]),
        insertable(modules@, old(map).0@) ==> r is Ok,
        r matches Err(es) ==> es@.len() > 0 && forall|x: int| 0 <= x < es@.len() ==> exists|i: int, a: int| 0 <= i < modules@.len()
            && 0 <= a < modules@[i].1.decl@.len() && collision_at(#[trigger] es@[x], modules@[i].0@, modules@[i].1.decl@[a]),
        insertable(modules@, old(map).0@) ==> forall|i: int, a: int| 0 <= i < modules@.len() && 0 <= a < modules@[i].1.decl@.len()
            ==> decl_bound(final(map).0@, str_views(modules@[i].0@), #[trigger] modules@[i].1.decl@[a]),
        forall|key: Seq<Seq<char>>, p: int| #[trigger] map_first(old(map).0@, key, p) ==> exists|q: int|
            #[trigger] map_first(final(map).0@, key, q) && ctx_extends(final(map).0@[q].1, old(map).0@[p].1),
{
    let ghost m_old = *map;
    let ghost cond = insertable(modules@, m_old.0@);
    let mut errors: Vec<Error> = Vec::new();
    let mut i: usize = 0;
    while i < modules.len()
        invariant
            i <= modules@.len(),
            mods_wf(modules@),
            forall|f: CompileFlags| map.wf(f),
            all_bare(modules@) ==> errors@.len() == 0,
            (exists|j: int| 0 <= j < i && !distinct_names(declared_names((#[trigger] modules@[j]).1))) ==> errors@.len() > 0,
            forall|j: int, a: int| 0 <= j < i && 0 <= a < declared_names(modules@[j].1).len()
                ==> map_has(map.0@, str_views(modules@[j].0@), #[trigger] declared_names(modules@[j].1)[a]),
            cond == insertable(modules@, m_old.0@),
            cond ==> errors@.len() == 0,
            forall|x: int| 0 <= x < errors@.len() ==> exists|j: int, a: int| 0 <= j < modules@.len()
                && 0 <= a < modules@[j].1.decl@.len() && collision_at(#[trigger] errors@[x], modules@[j].0@, modules@[j].1.decl@[a]),
            cond ==> forall|j: int, a: int| 0 <= j < i && 0 <= a < modules@[j].1.decl@.len()
                ==> decl_bound(map.0@, str_views(modules@[j].0@), #[trigger] modules@[j].1.decl@[a]),
            forall|key: Seq<Seq<char>>, p: int| #[trigger] map_first(m_old.0@, key, p) ==> exists|q: int|
                #[trigger] map_first(map.0@, key, q) && ctx_extends(map.0@[q].1, m_old.0@[p].1),
            cond ==> forall|key: Seq<Seq<char>>, p: int| (forall|j: int| 0 <= j < i ==> str_views(modules@[j].0@) != key)
                ==> ((#[trigger] map_first(map.0@, key, p) <==> map_first(m_old.0@, key, p))
                && (map_first(m_old.0@, key, p) ==> map.0@[p] == m_old.0@[p])),
        decreases modules.len() - i,
    {
        let name = ModuleName::from(clone_strings(&modules[i].0));
        let ghost key = name@;
        let ghost mut has_entry = false;
        let ghost mut gp: int = 0;
        let ghost m_before = *map;
        let mut ctx = match map.get(&name) {
            Some(c) => {
                proof {
                    let p = choose|p: int| #[trigger] map_first(map.0@, key, p) && *c == map.0@[p].1;
                    has_entry = true;
                    gp = p;
                    assert forall|n: Seq<char>| map_has(map.0@, key, n) implies ctx_keys(*c).contains(n) by {
                        let q = choose|q: int| #[trigger] map_first(map.0@, key, q) && ctx_keys(map.0@[q].1).contains(n);
                        lemma_map_first_unique(map.0@, key, p, q);
                    }
                }
                c.copy()
            },
            None => ModuleContext::new(),
        };
        let ghost ctx0 = ctx;
        proof {
            if has_entry {
                assert(ctx_extends(ctx0, map.0@[gp].1)) by {
                    assert forall|e: int| 0 <= e < map.0@[gp].1.0@.len() implies (#[trigger] ctx0.0@[e]).0@ == map.0@[gp].1.0@[e].0@ by {
                        assert(ctx_keys(ctx0)[e] == ctx_keys(map.0@[gp].1)[e]);
                    }
                }
            } else {
                assert(forall|q: int| !#[trigger] map_first(map.0@, key, q));
            }
            assert(key == str_views(modules@[i as int].0@));
            if cond {
                assert forall|a: int| 0 <= a < declared_names(modules@[i as int].1).len()
                    implies !ctx_keys(ctx0).contains(#[trigger] declared_names(modules@[i as int].1)[a]) by {
                    let n = declared_names(modules@[i as int].1)[a];
                    assert(!map_has(m_old.0@, key, n));
                    if ctx_keys(ctx0).contains(n) {
                        assert(has_entry);
                        assert forall|j: int| 0 <= j < i implies str_views(modules@[j].0@) != key by {
                            assert(str_views((modules@[j]).0@) != str_views((modules@[i as int]).0@));
                        }
                        assert(map_first(m_old.0@, key, gp));
                        assert(map.0@[gp] == m_old.0@[gp]);
                        assert(ctx_keys(m_old.0@[gp].1).contains(n)) by {
                            let j = choose|j: int| 0 <= j < ctx_keys(ctx0).len() && ctx_keys(ctx0)[j] == n;
                            assert(ctx_keys(m_old.0@[gp].1)[j] == n);
                        }
                        assert(map_has(m_old.0@, key, n));
                    }
                }
            }
        }
        assert forall|n: Seq<char>| map_has(map.0@, key, n) implies ctx_keys(ctx0).contains(n) by {
            if map_has(map.0@, key, n) {
                let q = choose|q: int| #[trigger] map_first(map.0@, key, q) && ctx_keys(map.0@[q].1).contains(n);
                assert(map.0@[q].0@ == key);
            }
        }
        assert forall|f: CompileFlags| ctx.wf(f) by {
            assert(map.wf(f));
        }
        let m = &modules[i].1;
        assert(module_wf(modules@[i as int].1));
        assert(all_bare(modules@) ==> bare(modules@[i as int].1));
        let ghost e0 = errors@.len();
        let ghost names = declared_names(*m);
        let mut k: usize = 0;
        while k < m.decl.len()
            invariant
                i < modules@.len(),
                *m == modules@[i as int].1,
                names == declared_names(*m),
                k <= m.decl@.len(),
                module_wf(*m),
                forall|f: CompileFlags| ctx.wf(f),
                all_bare(modules@) ==> m.decl@.len() == 0 && errors@.len() == 0,
                errors@.len() >= e0,
                forall|a: int| 0 <= a < k ==> ctx_keys(ctx).contains(#[trigger] names[a]),
                forall|n: Seq<char>| ctx_keys(ctx0).contains(n) ==> #[trigger] ctx_keys(ctx).contains(n),
                (exists|a: int, b: int| 0 <= a < b < k && names[a] == names[b]) ==> errors@.len() > 0,
                ctx_extends(ctx, ctx0),
                cond == insertable(modules@, m_old.0@),
                cond ==> errors@.len() == e0 && ctx_keys(ctx) == ctx_keys(ctx0) + names.take(k as int),
                cond ==> forall|a: int| 0 <= a < names.len() ==> !ctx_keys(ctx0).contains(#[trigger] names[a]),
                cond ==> distinct_names(names),
                cond ==> forall|a: int| 0 <= a < k ==> (#[trigger] ctx.0@[ctx0.0@.len() + a]).0@ == names[a]
                    && same_fc(ctx.0@[ctx0.0@.len() + a].1, FuncContext::Func(m.decl@[a])),
                names.len() == m.decl@.len(),
                forall|x: int| 0 <= x < errors@.len() ==> exists|j: int, a: int| 0 <= j < modules@.len()
                    && 0 <= a < modules@[j].1.decl@.len() && collision_at(#[trigger] errors@[x], modules@[j].0@, modules@[j].1.decl@[a]),
            decreases m.decl.len() - k,
        {
            assert(decl_wf(m.decl@[k as int]));
            let fname = FuncName::from(ident_of(&m.decl[k].ident));
            assert(fname@ == names[k as int]);
            let ghost keys0 = ctx_keys(ctx);
            proof {
                if cond {
                    assert(distinct_names(declared_names((modules@[i as int]).1)));
                    if keys0.contains(fname@) {
                        let j = choose|j: int| 0 <= j < keys0.len() && keys0[j] == fname@;
                        if j < ctx_keys(ctx0).len() {
                            assert(ctx_keys(ctx0).contains(names[k as int]));
                        } else {
                            assert(names.take(k as int)[j - ctx_keys(ctx0).len()] == names[k as int]);
                        }
                        assert(false);
                    }
                }
            }
            if ctx.contains_key(&fname) {
                let ghost e0s = errors@;
                let err = Error::new_from_code(
                    Some(m.decl[k].lno),
                    ErrorCode::FunctionNameCollision { module: join(&modules[i].0, "::"), func: fname.to_string(), count: None },
                );
                proof {
                    assert(collision_at(err, modules@[i as int].0@, modules@[i as int].1.decl@[k as int]));
                }
                errors.push(err);
                proof {
                    assert forall|x: int| 0 <= x < errors@.len() implies exists|j: int, a: int| 0 <= j < modules@.len()
                        && 0 <= a < modules@[j].1.decl@.len() && collision_at(#[trigger] errors@[x], modules@[j].0@, modules@[j].1.decl@[a]) by {
                        if x < e0s.len() {
                            assert(errors@[x] == e0s[x]);
                        } else {
                            assert(0 <= k < modules@[i as int].1.decl@.len());
                        }
                    }
                }
            } else {
                let dk = copy_decl_wf(&m.decl[k]);
                proof {
                    assert(same_fc(FuncContext::Func(dk), FuncContext::Func(m.decl@[k as int])));
                }
                let value = FuncContext::Func(dk);
                assert(forall|f: CompileFlags| func_ctx_wf(value, f));
                let ghost c0 = ctx;
                let ghost fv = fname@;
                ctx.insert(fname, value);
                assert forall|f: CompileFlags| ctx.wf(f) by {
                    assert(c0.wf(f) && func_ctx_wf(value, f));
                }
                assert(ctx_keys(ctx) == keys0.push(fv));
                assert(!ctx_keys(c0).contains(fv));
                assert(forall|j: int| 0 <= j < c0.0@.len() ==> #[trigger] ctx.0@[j] == c0.0@[j]);
                assert(ctx_extends(ctx, ctx0)) by {
                    assert forall|e: int| 0 <= e < ctx0.0@.len() implies (#[trigger] ctx.0@[e]).0@ == ctx0.0@[e].0@
                        && same_fc(ctx.0@[e].1, ctx0.0@[e].1) by {
                        assert(ctx.0@[e] == c0.0@[e]);
                        assert(c0.0@[e].0@ == ctx0.0@[e].0@ && same_fc(c0.0@[e].1, ctx0.0@[e].1));
                        lemma_same_fc_trans(ctx.0@[e].1, c0.0@[e].1, ctx0.0@[e].1);
                    }
                }
                proof {
                    if cond {
                        assert(ctx_keys(ctx0) + names.take(k as int + 1) =~= (ctx_keys(ctx0) + names.take(k as int)).push(fv));
                        assert(c0.0@.len() == ctx0.0@.len() + k) by {
                            assert(ctx_keys(c0).len() == c0.0@.len());
                        }
                        assert forall|a: int| 0 <= a < k + 1 implies (#[trigger] ctx.0@[ctx0.0@.len() + a]).0@ == names[a]
                            && same_fc(ctx.0@[ctx0.0@.len() + a].1, FuncContext::Func(m.decl@[a])) by {
                            if a < k {
                                assert(ctx.0@[ctx0.0@.len() + a] == c0.0@[ctx0.0@.len() + a]);
                            } else {
                                assert(ctx.0@[ctx0.0@.len() + a] == ctx.0@.last());
                            }
                        }
                    }
                }
                assert forall|n: Seq<char>| ctx_keys(ctx0).contains(n) implies #[trigger] ctx_keys(ctx).contains(n) by {
                    assert(ctx_keys(c0).contains(n));
                    let j = choose|j: int| 0 <= j < keys0.len() && keys0[j] == n;
                    assert(ctx_keys(ctx)[j] == n);
                }
                assert forall|a: int| 0 <= a < k + 1 implies ctx_keys(ctx).contains(#[trigger] names[a]) by {
                    if a < k {
                        let j = choose|j: int| 0 <= j < keys0.len() && keys0[j] == names[a];
                        assert(ctx_keys(ctx)[j] == names[a]);
                    } else {
                        assert(ctx_keys(ctx)[keys0.len() as int] == names[a]);
                    }
                }
                assert forall|a: int, b: int| 0 <= a < b < k + 1 && names[a] == names[b] implies errors@.len() > 0 by {
                    if b == k {
                        assert(keys0.contains(names[a]));
                    }
                }
            }
            k = k + 1;
        }
        proof {
            if !distinct_names(names) {
                let (a, b) = choose|a: int, b: int| 0 <= a < b < names.len() && names[a] != names[b] == false;
                assert(0 <= a < b < k && names[a] == names[b]);
            }
        }
        let ghost m0 = *map;
        let ghost c1 = ctx;
        map.insert(name, ctx);
        assert forall|f: CompileFlags| map.wf(f) by {
            assert(m0.wf(f) && c1.wf(f));
        }
        proof {
            lemma_map_give(m0.0@, map.0@, key, c1);
            lemma_map_keep(m0.0@, map.0@, key, c1);
            let p = choose|p: int| #[trigger] map_first(map.0@, key, p) && map.0@[p].1 == c1;
            assert forall|key2: Seq<Seq<char>>, p2: int| #[trigger] map_first(m_old.0@, key2, p2) implies exists|q: int|
                #[trigger] map_first(map.0@, key2, q) && ctx_extends(map.0@[q].1, m_old.0@[p2].1) by {
                let q0 = choose|q: int| #[trigger] map_first(m0.0@, key2, q) && ctx_extends(m0.0@[q].1, m_old.0@[p2].1);
                if key2 == key {
                    assert(has_entry);
                    lemma_map_first_unique(m0.0@, key, q0, gp);
                    assert(m0.0@[gp].1 == m_before.0@[gp].1);
                    lemma_extends_trans(ctx0, m0.0@[q0].1, m_old.0@[p2].1);
                    lemma_extends_trans(c1, ctx0, m_old.0@[p2].1);
                    assert(map_first(map.0@, key2, p));
                } else {
                    assert(map_first(map.0@, key2, q0));
                    assert(map.0@[q0] == m0.0@[q0]);
                }
            }
            if cond {
                lemma_insert_bound(m0.0@, map.0@, key, c1, ctx0, modules@, i as int, names);
                assert forall|key2: Seq<Seq<char>>, p2: int| (forall|j: int| 0 <= j < i + 1 ==> str_views(modules@[j].0@) != key2)
                    implies ((#[trigger] map_first(map.0@, key2, p2) <==> map_first(m_old.0@, key2, p2))
                    && (map_first(m_old.0@, key2, p2) ==> map.0@[p2] == m_old.0@[p2])) by {
                    assert(str_views(modules@[i as int].0@) != key2);
                    assert(key2 != key);
                    if map_first(m_old.0@, key2, p2) {
                        assert(map_first(m0.0@, key2, p2));
                    }
                }
            }
            assert forall|j: int, a: int| 0 <= j < i + 1 && 0 <= a < declared_names(modules@[j].1).len()
                implies map_has(map.0@, str_views(modules@[j].0@), #[trigger] declared_names(modules@[j].1)[a]) by {
                let n = declared_names(modules@[j].1)[a];
                if str_views(modules@[j].0@) == key {
                    if j < i {
                        assert(map_has(m0.0@, key, n));
                        assert(ctx_keys(ctx0).contains(n));
                    } else {
                        assert(names[a] == n);
                    }
                    assert(ctx_keys(c1).contains(n));
                    assert(ctx_keys(map.0@[p].1).contains(n));
                } else {
                    assert(map_has(m0.0@, str_views(modules@[j].0@), n));
                }
            }
        }
        i = i + 1;
    }
    if errors.len() > 0 {
        Err(errors)
    } else {
        Ok(())
    }
}

/// The path of the main module.
pub open spec fn main_path() -> Seq<Seq<char>> {
    seq!["fs"@, "main"@]
}

/// The context `c` knows, first and in this order, the names of `es`, each as the import
/// of the function of `es`.
pub open spec fn binds_imports(c: ModuleContext, es: Seq<(Seq<char>, Seq<Seq<char>>, Seq<char>)>) -> bool {
    &&& c.0@.len() >= es.len()
    &&& forall|e: int| 0 <= e < es.len() ==> (#[trigger] c.0@[e]).0@ == es[e].0 && (c.0@[e].1 matches FuncContext::Import(fi)
        && fi.module@ == es[e].1 && fi.ident@ == es[e].2)
}

/// The main module imports by name only, under distinct names, each function from one of the
/// modules `ms` that declares it; the modules `ms` import nothing, declare distinct names and
/// have distinct names, none of them `fs::main`.
pub open spec fn linkable(main: Module, ms: Seq<(Vec<String>, Module)>) -> bool {
    &&& distinct_names(known_names(main))
    &&& forall|j: int| 0 <= j < ms.len() ==> str_views((#[trigger] ms[j]).0@) != seq!["fs"@, "main"@]
        && ms[j].1.imp@.len() == 0 && distinct_names(declared_names(ms[j].1))
    &&& forall|i: int, j: int| 0 <= i < j < ms.len() ==> str_views((#[trigger] ms[i]).0@) != str_views((#[trigger] ms[j]).0@)
    &&& forall|k: int| 0 <= k < main.imp@.len() ==> (#[trigger] main.imp@[k]).funcs is Funcs
        && imp_path(main.imp@[k]) != seq!["fs"@, "main"@]
        && (exists|j: int| 0 <= j < ms.len() && str_views((#[trigger] ms[j]).0@) == imp_path(main.imp@[k]))
    &&& forall|k: int, j: int, e: int| 0 <= k < main.imp@.len() && 0 <= j < ms.len()
        && str_views(ms[j].0@) == imp_path(main.imp@[k]) && 0 <= e < imp_entries(main.imp@[k]).len()
        ==> declared_names((#[trigger] ms[j]).1).contains((#[trigger] imp_entries(main.imp@[k])[e]).2)
}

/// The main module `main` stands at `at` of `ms`, the only module named `fs::main`; the
/// modules have distinct names, the others import nothing and declare distinct names, and
/// the imports of `main` are direct.
spec fn main_placed(ms: Seq<(Vec<String>, Module)>, at: int, main: Module) -> bool {
    &&& 0 <= at < ms.len() && ms[at].1 == main
    &&& forall|x: int| 0 <= x < ms.len() ==> (str_views((#[trigger] ms[x]).0@) == main_path() <==> x == at)
    &&& forall|x: int, y: int| 0 <= x < y < ms.len() ==> str_views((#[trigger] ms[x]).0@) != str_views((#[trigger] ms[y]).0@)
    &&& forall|x: int| 0 <= x < ms.len() && x != at ==> (#[trigger] ms[x]).1.imp@.len() == 0
        && distinct_names(declared_names(ms[x].1))
    &&& direct_imports(ms, at)
    &&& distinct_names(known_names(main))
}

impl ModuleMap {
    /// Parses the files of a directory into modules (without their statements), each
    /// named by its path under `fs`; all parse errors are reported.
    pub fn parse(directory: &Directory) -> (r: StdResult<Vec<(Vec<String>, Module)>>)
        ensures
            r matches Ok(ms) ==> mods_wf(ms@),
            flat_files(*directory).len() == 0 ==> (r matches Ok(ms) && ms@.len() == 0),
            r matches Err(es) ==> es@.len() > 0,
    {
        let mut it = directory.walk();
        let mut modules: Vec<(Vec<String>, Module)> = Vec::new();
        let mut errors: Vec<Error> = Vec::new();
        loop
            invariant
                mods_wf(modules@),
                it.items() == flat_files(*directory),
                flat_files(*directory).len() == 0 ==> modules@.len() == 0 && errors@.len() == 0,
            decreases it.items().len() - it.position(),
        {
            match it.next() {
                Some((path, contents)) => {
                    match LoopParser::parse(contents.as_str(), &ParseSettings::new(None)) {
                        Ok(m) => {
                            let mut name: Vec<String> = Vec::new();
                            name.push(String::from_str("fs"));
                            let mut path = path;
                            name.append(&mut path);
                            let ghost before = modules@;
                            modules.push((name, Module { imp: m.imp, decl: m.decl, code: Hir::NoOp }));
                            proof {
                                assert forall|j: int| 0 <= j < modules@.len() implies module_wf(#[trigger] modules@[j].1) by {
                                    if j < before.len() {
                                        assert(modules@[j] == before[j]);
                                    }
                                }
                            }
                        },
                        Err(e) => {
                            errors.push(e);
                        },
                    }
                },
                None => {
                    break;
                },
            }
        }
        if errors.len() > 0 {
            Err(errors)
        } else {
            Ok(modules)
        }
    }

    /// The modules of a compilation with every import resolved to the module that declares
    /// the function: the main module `main`, the modules of `directory` (under `fs`) and the
    /// modules of the library `lib` they import (outside `fs`, loaded when first imported).
    /// All errors found are reported, each once.
    pub fn from(main: Module, directory: Directory, lib: Directory) -> (r: StdResult<ModuleMap>)
        requires
            module_wf(main),
        ensures
            r matches Ok(m) ==> forall|f: CompileFlags| m.wf(f),
            flat_files(directory).len() == 0 && bare(main) ==> r is Ok,
            !distinct_names(known_names(main)) ==> r is Err,
            r matches Ok(m) ==> forall|a: int| 0 <= a < declared_names(main).len()
                ==> map_has(m.0@, seq!["fs"@, "main"@], #[trigger] declared_names(main)[a]),
            r matches Err(es) ==> es@.len() > 0,
    {
        let modules = ModuleMap::parse(&directory)?;
        ModuleMap::from_parsed(main, modules, lib)
    }

    /// The module map of the main module `main` with the parsed modules `modules` (named
    /// under `fs`) and the library `lib`, as `from` builds it once the directory is parsed.
    /// Where the main module imports by name only, each function from a module of
    /// `modules` that declares it, under distinct names, and those modules import nothing
    /// and have distinct names other than `fs::main`, the map is built and the main module
    /// knows each imported name, first and in order, as the import of that function.
    pub fn from_parsed(main: Module, modules: Vec<(Vec<String>, Module)>, lib: Directory) -> (r: StdResult<ModuleMap>)
        requires
            module_wf(main),
            mods_wf(modules@),
        ensures
            r matches Ok(m) ==> forall|f: CompileFlags| m.wf(f),
            modules@.len() == 0 && bare(main) ==> r is Ok,
            !distinct_names(known_names(main)) ==> r is Err,
            r matches Ok(m) ==> forall|a: int| 0 <= a < declared_names(main).len()
                ==> map_has(m.0@, seq!["fs"@, "main"@], #[trigger] declared_names(main)[a]),
            r matches Err(es) ==> es@.len() > 0,
            linkable(main, modules@) ==> (r matches Ok(m) && exists|p: int| #[trigger] map_first(m.0@, main_path(), p)
                && binds_imports(m.0@[p].1, imports_entries(main.imp@))),
            linkable(main, modules@) ==> (r matches Ok(m) && (forall|a: int| 0 <= a < main.decl@.len()
                ==> decl_bound(m.0@, main_path(), #[trigger] main.decl@[a]))
                && forall|j: int, a: int| 0 <= j < modules@.len() && 0 <= a < modules@[j].1.decl@.len()
                ==> decl_bound(m.0@, str_views(modules@[j].0@), #[trigger] modules@[j].1.decl@[a])),
    {
        let ghost easy = modules@.len() == 0 && bare(main);
        let ghost link = linkable(main, modules@);
        let ghost modules_in = modules@;
        let ghost main_view = main;
        let mut modules = modules;
        let main_name = ModuleName::main().0;
        let ghost mut main_idx: int = 0;
        match position_of(&modules, &main_name) {
            Some(at) => {
                let ghost before = modules@;
                proof {
                    if link {
                        assert(str_views((before[at as int]).0@) != seq!["fs"@, "main"@]);
                        assert(false);
                    }
                }
                modules.set(at, (clone_strings(&main_name), main));
                proof {
                    main_idx = at as int;
                    assert(modules@[at as int].1 == main_view);
                    assert forall|j: int| 0 <= j < modules@.len() implies module_wf(#[trigger] modules@[j].1) by {
                        if j != at {
                            assert(modules@[j] == before[j]);
                        }
                    }
                }
            },
            None => {
                let ghost before = modules@;
                modules.push((clone_strings(&main_name), main));
                proof {
                    main_idx = before.len() as int;
                    assert(modules@[modules@.len() - 1].1 == main_view);
                    assert forall|j: int| 0 <= j < modules@.len() implies module_wf(#[trigger] modules@[j].1) by {
                        if j < before.len() {
                            assert(modules@[j] == before[j]);
                        }
                    }
                    if easy {
                        assert(modules@.len() == 1 && modules@[0].1 == main);
                    }
                }
            },
        }
        assert(exists|j: int| 0 <= j < modules@.len() && modules@[j].1 == main_view);
        assert(0 <= main_idx < modules@.len() && modules@[main_idx].1 == main_view
            && str_views(modules@[main_idx].0@) == seq!["fs"@, "main"@]);
        let ghost placed = modules@;
        proof {
            if link {
                let ms = modules_in;
                assert(main_idx == ms.len() && placed.len() == ms.len() + 1);
                assert forall|x: int| 0 <= x < ms.len() implies #[trigger] placed[x] == ms[x] by {
                }
                assert forall|x: int| 0 <= x < placed.len() implies (str_views((#[trigger] placed[x]).0@) == main_path() <==> x == main_idx) by {
                    if x < ms.len() {
                        assert(str_views((ms[x]).0@) != seq!["fs"@, "main"@]);
                    }
                }
                assert forall|x: int, y: int| 0 <= x < y < placed.len() implies str_views((#[trigger] placed[x]).0@)
                    != str_views((#[trigger] placed[y]).0@) by {
                    if y < ms.len() {
                        assert(str_views((ms[x]).0@) != str_views((ms[y]).0@));
                    } else {
                        assert(str_views((ms[x]).0@) != seq!["fs"@, "main"@]);
                    }
                }
                let imps = main_view.imp@;
                let dl = main_view.decl@.len() as int;
                assert forall|a: int, b: int| 0 <= a < b < imports_names(imps).len() implies imports_names(imps)[a] != imports_names(imps)[b] by {
                    assert(known_names(main_view)[dl + a] == imports_names(imps)[a]);
                    assert(known_names(main_view)[dl + b] == imports_names(imps)[b]);
                }
                assert forall|k: int| 0 <= k < imps.len() implies (#[trigger] imps[k]).funcs is Funcs
                    && imp_path(imps[k]) != str_views(placed[main_idx].0@)
                    && (exists|j: int| 0 <= j < placed.len() && str_views((#[trigger] placed[j]).0@) == imp_path(imps[k])) by {
                    assert(main_view.imp@[k].funcs is Funcs);
                    let j = choose|j: int| 0 <= j < ms.len() && str_views((#[trigger] ms[j]).0@) == imp_path(main_view.imp@[k]);
                    assert(placed[j] == ms[j]);
                }
                assert forall|k: int, j: int, e: int| 0 <= k < imps.len() && 0 <= j < placed.len()
                    && str_views(placed[j].0@) == imp_path(imps[k]) && 0 <= e < imp_entries(imps[k]).len()
                    implies declared_names((#[trigger] placed[j]).1).contains((#[trigger] imp_entries(imps[k])[e]).2) by {
                    assert(imp_path(main_view.imp@[k]) != seq!["fs"@, "main"@]);
                    assert(j != main_idx);
                    assert(placed[j] == ms[j]);
                    assert(declared_names((ms[j]).1).contains((imp_entries(main_view.imp@[k])[e]).2));
                }
                assert(placed[main_idx].1 == main_view);
                assert(direct_imports(placed, main_idx));
                assert(distinct_names(known_names(main_view)));
                assert forall|x: int| 0 <= x < placed.len() && x != main_idx implies (#[trigger] placed[x]).1.imp@.len() == 0
                    && distinct_names(declared_names(placed[x].1)) by {
                    assert(placed[x] == ms[x]);
                }
                assert(main_placed(placed, main_idx, main_view));
                assert forall|x: int| 0 <= x < placed.len() implies distinct_names(known_names((#[trigger] placed[x]).1)) by {
                    if x != main_idx {
                        assert(placed[x] == ms[x]);
                        assert(ms[x].1.imp@.len() == 0);
                        assert(imports_names(ms[x].1.imp@) =~= Seq::<Seq<char>>::empty());
                        assert(known_names(ms[x].1) =~= declared_names(ms[x].1));
                    }
                }
            }
            if !distinct_names(known_names(main_view)) {
                let j = choose|j: int| 0 <= j < modules@.len() && modules@[j].1 == main_view;
                assert(!distinct_names(known_names(modules@[j].1)));
            }
        }
        basic_collision_check(&modules)?;
        assert(str_views(main_name@) == main_path());

        // the order of resolution: the main module first, then by name
        let n = modules.len();
        let mut order: Vec<usize> = Vec::new();
        let mut i: usize = 0;
        while i < n
            invariant
                i <= n,
                n == modules@.len(),
                order@.len() == i,
                forall|j: int| 0 <= j < i ==> order@[j] < n,
                forall|j: int| 0 <= j < i ==> order@[j] == j,
            decreases n - i,
        {
            order.push(i);
            i = i + 1;
        }
        let mut i: usize = 0;
        assert(order@[main_idx] == main_idx);
        while i < n
            invariant
                n == modules@.len(),
                order@.len() == n,
                forall|j: int| 0 <= j < n ==> order@[j] < n,
                modules@ == placed,
                0 <= main_idx < n,
                str_views(main_name@) == main_path(),
                link ==> main_placed(placed, main_idx, main_view),
                forall|a: int, b: int| 0 <= a < b < n ==> order@[a] != order@[b],
                exists|m: int| 0 <= m < n && order@[m] == main_idx,
                link && i >= 1 ==> order@[0] == main_idx,
            decreases n - i,
        {
            let mut best = i;
            let mut j: usize = i + 1;
            while j < n
                invariant
                    n == modules@.len(),
                    order@.len() == n,
                    forall|m: int| 0 <= m < n ==> order@[m] < n,
                    i < n,
                    i < j,
                    i <= best < n,
                    modules@ == placed,
                    0 <= main_idx < n,
                    str_views(main_name@) == main_path(),
                    link ==> main_placed(placed, main_idx, main_view),
                    forall|a: int, b: int| 0 <= a < b < n ==> order@[a] != order@[b],
                    exists|m: int| 0 <= m < n && order@[m] == main_idx,
                    link && i >= 1 ==> order@[0] == main_idx,
                    link && i == 0 ==> ((exists|m: int| 0 <= m < j && order@[m] == main_idx) ==> order@[best as int] == main_idx),
                decreases n - j,
            {
                let jm = names_eq(&modules[order[j]].0, &main_name);
                let bm = names_eq(&modules[order[best]].0, &main_name);
                proof {
                    if link {
                        assert(jm == (order@[j as int] == main_idx)) by {
                            assert(str_views((placed[order@[j as int] as int]).0@) == main_path() <==> order@[j as int] == main_idx);
                        }
                        assert(bm == (order@[best as int] == main_idx)) by {
                            assert(str_views((placed[order@[best as int] as int]).0@) == main_path() <==> order@[best as int] == main_idx);
                        }
                    }
                }
                if (jm && !bm) || (!jm && !bm && name_less(&modules[order[j]].0, &modules[order[best]].0)) {
                    best = j;
                }
                j = j + 1;
            }
            proof {
                if link && i == 0 {
                    assert(exists|m: int| 0 <= m < j && order@[m] == main_idx);
                }
            }
            if best != i {
                let a = order[i];
                let b = order[best];
                let ghost o0 = order@;
                order.set(i, b);
                order.set(best, a);
                proof {
                    assert forall|x: int, y: int| 0 <= x < y < n implies order@[x] != order@[y] by {
                        let fx = if x == i { best as int } else if x == best { i as int } else { x };
                        let fy = if y == i { best as int } else if y == best { i as int } else { y };
                        assert(order@[x] == o0[fx]);
                        assert(order@[y] == o0[fy]);
                        if fx < fy {
                            assert(o0[fx] != o0[fy]);
                        } else {
                            assert(o0[fy] != o0[fx]);
                        }
                    }
                    let w = choose|m: int| 0 <= m < n && o0[m] == main_idx;
                    let w2 = if w == i { best as int } else if w == best { i as int } else { w };
                    assert(order@[w2] == main_idx);
                }
            }
            i = i + 1;
        }

        let mut count = modules.len();
        let mut it = lib.walk();
        loop
            invariant
                count >= n,
                n >= 1,
                modules@ == placed,
                order@.len() == n,
                forall|j: int| 0 <= j < n ==> order@[j] < n,
                forall|a: int, b: int| 0 <= a < b < n ==> order@[a] != order@[b],
                link ==> order@[0] == main_idx,
            decreases it.items().len() - it.position(),
        {
            match it.next() {
                Some(_) => {
                    if count < usize::MAX - 1 {
                        count = count + 1;
                    }
                },
                None => {
                    break;
                },
            }
        }
        let fuel = if count < usize::MAX { count + 1 } else { count };

        let mut errors: Vec<Error> = Vec::new();
        let mut map = ModuleMap::new();
        let mut cache = Cache { wildcard: Vec::new(), impfunc: Vec::new() };
        let mut k: usize = 0;
        let ghost ei_main = imports_entries(main_view.imp@);
        while k < order.len()
            invariant
                fuel > 0,
                order@.len() == n,
                0 <= main_idx < n,
                ei_main == imports_entries(main_view.imp@),
                link ==> main_placed(placed, main_idx, main_view) && modules@ == placed && errors@.len() == 0
                    && order@[0] == main_idx && forall|a: int, b: int| 0 <= a < b < n ==> order@[a] != order@[b],
                link && k == 0 ==> cache.impfunc@.len() == 0 && map.0@.len() == 0,
                link ==> forall|key: Seq<Seq<char>>, p: int| #[trigger] map_first(map.0@, key, p) ==> (key == main_path()
                    ==> map.0@[p].1.0@.len() == ei_main.len() && binds_imports(map.0@[p].1, ei_main))
                    && (key != main_path() ==> map.0@[p].1.0@.len() == 0),
                link && k >= 1 ==> exists|p: int| #[trigger] map_first(map.0@, main_path(), p),
                mods_wf(modules@),
                forall|f: CompileFlags| map.wf(f),
                modules@.len() >= n,
                forall|j: int| 0 <= j < order@.len() ==> order@[j] < n,
                easy ==> errors@.len() == 0 && all_bare(modules@),
                cache_wf(cache),
                n == placed.len(),
                modules@.len() >= placed.len(),
                forall|j: int| 0 <= j < placed.len() ==> modules@[j] == placed[j],
            decreases order.len() - k,
        {
            let at = order[k];
            let name = clone_strings(&modules[at].0);
            proof {
                if easy {
                    assert(bare(modules@[at as int].1));
                }
                if link {
                    if k == 0 {
                        assert(at == main_idx);
                        assert(direct_imports(modules@, at as int));
                    } else {
                        assert(order@[0] != order@[k as int]);
                        assert(at != main_idx);
                        assert(modules@[at as int].1.imp@.len() == 0);
                    }
                }
            }
            let ghost c0 = cache;
            match resolve(at, &mut modules, &lib, &mut cache, fuel) {
                Err(es) => {
                    append_errors(&mut errors, es);
                },
                Ok((ctx, _)) => {
                    let c = context_of(&ctx);
                    let ghost m0 = map;
                    let mname = ModuleName::from(name);
                    let ghost key = mname@;
                    map.insert(mname, c);
                    assert forall|f: CompileFlags| map.wf(f) by {
                        assert(m0.wf(f) && c.wf(f));
                    }
                    proof {
                        if link {
                            lemma_map_give(m0.0@, map.0@, key, c);
                            lemma_map_keep(m0.0@, map.0@, key, c);
                            assert(key == str_views(placed[at as int].0@));
                            if k == 0 {
                                assert(key == main_path());
                                assert(binds_exactly(ctx@, ei_main));
                                assert(binds_imports(c, ei_main)) by {
                                    assert forall|e: int| 0 <= e < ei_main.len() implies (#[trigger] c.0@[e]).0@ == ei_main[e].0
                                        && (c.0@[e].1 matches FuncContext::Import(fi) && fi.module@ == ei_main[e].1
                                        && fi.ident@ == ei_main[e].2) by {
                                        assert(ctx@[e].0@ == ei_main[e].0);
                                    }
                                }
                            } else {
                                assert(key != main_path());
                                assert(ctx@.len() == 0);
                            }
                            let p = choose|p: int| #[trigger] map_first(map.0@, key, p) && map.0@[p].1 == c;
                            assert forall|key2: Seq<Seq<char>>, p2: int| #[trigger] map_first(map.0@, key2, p2) implies (key2 == main_path()
                                ==> map.0@[p2].1.0@.len() == ei_main.len() && binds_imports(map.0@[p2].1, ei_main))
                                && (key2 != main_path() ==> map.0@[p2].1.0@.len() == 0) by {
                                if key2 == key {
                                    assert(p2 == p);
                                } else {
                                    assert(map_first(m0.0@, key2, p2));
                                    assert(map.0@[p2] == m0.0@[p2]);
                                }
                            }
                            if k >= 1 {
                                let q = choose|q: int| #[trigger] map_first(m0.0@, main_path(), q);
                                assert(map_first(map.0@, main_path(), q));
                            } else {
                                assert(map_first(map.0@, main_path(), p));
                            }
                        }
                    }
                },
            }
            k = k + 1;
        }
        proof {
            if link {
                assert(k >= 1);
                let dl = main_view.decl@.len() as int;
                lemma_entries_names(main_view.imp@);
                assert forall|x: int| 0 <= x < modules@.len() implies distinct_names(declared_names((#[trigger] modules@[x]).1)) by {
                    if x == main_idx {
                        assert forall|a: int, b: int| 0 <= a < b < declared_names(main_view).len()
                            implies declared_names(main_view)[a] != declared_names(main_view)[b] by {
                            assert(known_names(main_view)[a] == declared_names(main_view)[a]);
                            assert(known_names(main_view)[b] == declared_names(main_view)[b]);
                        }
                    }
                }
                assert forall|x: int, a: int| 0 <= x < modules@.len() && 0 <= a < declared_names(modules@[x].1).len()
                    implies !map_has(map.0@, str_views(modules@[x].0@), #[trigger] declared_names(modules@[x].1)[a]) by {
                    let nm = declared_names(modules@[x].1)[a];
                    let key = str_views(modules@[x].0@);
                    if map_has(map.0@, key, nm) {
                        let p = choose|p: int| #[trigger] map_first(map.0@, key, p) && ctx_keys(map.0@[p].1).contains(nm);
                        let j = choose|j: int| 0 <= j < ctx_keys(map.0@[p].1).len() && ctx_keys(map.0@[p].1)[j] == nm;
                        assert(key == main_path());
                        assert(x == main_idx);
                        assert(map.0@[p].1.0@[j].0@ == ei_main[j].0);
                        assert(imports_names(main_view.imp@)[j] == nm);
                        assert(known_names(main_view)[dl + j] == nm);
                        assert(known_names(main_view)[a] == nm);
                        assert(false);
                    }
                }
                assert(insertable(modules@, map.0@));
            }
        }
        let ghost m1 = map;
        match insert_funcs(&modules, &mut map) {
            Err(es) => {
                append_errors(&mut errors, es);
            },
            Ok(()) => {},
        }
        proof {
            if link {
                let p = choose|p: int| #[trigger] map_first(m1.0@, main_path(), p);
                let q = choose|q: int| #[trigger] map_first(map.0@, main_path(), q) && ctx_extends(map.0@[q].1, m1.0@[p].1);
                assert(binds_imports(m1.0@[p].1, ei_main));
                assert forall|e: int| 0 <= e < ei_main.len() implies (#[trigger] map.0@[q].1.0@[e]).0@ == ei_main[e].0
                    && (map.0@[q].1.0@[e].1 matches FuncContext::Import(fi) && fi.module@ == ei_main[e].1
                    && fi.ident@ == ei_main[e].2) by {
                    assert(m1.0@[p].1.0@[e].0@ == ei_main[e].0);
                    assert(same_fc(map.0@[q].1.0@[e].1, m1.0@[p].1.0@[e].1));
                }
                assert(binds_imports(map.0@[q].1, ei_main));
                assert(errors@.len() == 0);
            }
        }
        proof {
            assert(modules@[main_idx] == placed[main_idx]);
            assert forall|a: int| 0 <= a < declared_names(main_view).len()
                implies map_has(map.0@, seq!["fs"@, "main"@], #[trigger] declared_names(main_view)[a]) by {
                assert(declared_names(modules@[main_idx].1)[a] == declared_names(main_view)[a]);
            }
        }
        let ghost map_final = map;
        let res = if errors.len() > 0 {
            Err(unique_variants(errors))
        } else {
            Ok(map)
        };
        proof {
            if link {
                let mm = res->Ok_0;
                assert(mm == map_final);
                assert forall|a: int| 0 <= a < main_view.decl@.len() implies decl_bound(mm.0@, main_path(), #[trigger] main_view.decl@[a]) by {
                    assert(modules@[main_idx].1.decl@[a] == main_view.decl@[a]);
                    assert(str_views(modules@[main_idx].0@) == main_path());
                }
                assert forall|j: int, a: int| 0 <= j < modules_in.len() && 0 <= a < modules_in[j].1.decl@.len()
                    implies decl_bound(mm.0@, str_views(modules_in[j].0@), #[trigger] modules_in[j].1.decl@[a]) by {
                    assert(modules@[j] == placed[j]);
                    assert(placed[j] == modules_in[j]);
                    assert(modules@[j].1.decl@[a] == modules_in[j].1.decl@[a]);
                }
                assert(exists|p: int| #[trigger] map_first(mm.0@, main_path(), p)
                    && binds_imports(mm.0@[p].1, imports_entries(main_view.imp@)));
            }
        }
        res
    }
}

} // verus!
