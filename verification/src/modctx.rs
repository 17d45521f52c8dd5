use vstd::prelude::*;
use crate::expr::{Expr, LineNo, runnable, mode_ok};
use crate::flags::CompileFlags;
use crate::hir::{FuncDecl, stmt_wf, is_ident, copy_decl};
use crate::expr::{clone_expr, views};
use crate::names::clone_strings;
use crate::names::{ModuleName, FuncName};
use crate::lowering::{func_free, lower_ok};

verus! {

/// A function imported from `module`, where it is called `ident`.
#[derive(Debug)]
pub struct FuncImport {
    pub module: ModuleName,
    pub ident: FuncName,
}

/// The same types under their long names.
pub type FunctionImport = FuncImport;
pub type FunctionInline = FuncInline;
pub type FunctionContext = FuncContext;

/// A function already inlined: its parameters and return variable are renamed.
#[derive(Debug)]
pub struct FuncInline {
    pub lno: LineNo,
    pub ident: String,
    pub params: Vec<String>,
    pub ret: String,
    pub terms: Expr,
}

/// What a name of a module stands for.
#[derive(Debug)]
pub enum FuncContext {
    /// An import.
    Import(FuncImport),
    /// A function that still needs to be inlined.
    Func(FuncDecl),
    /// A function already inlined.
    Inline(FuncInline),
}

/// The functions known in a module, by name.
#[derive(Debug)]
pub struct ModuleContext(pub Vec<(FuncName, FuncContext)>);

/// A declaration whose name, parameters and return variable are identifiers and whose
/// body has the shapes the parser produces.
pub open spec fn decl_wf(d: FuncDecl) -> bool {
    &&& is_ident(*d.ident)
    &&& is_ident(*d.ret)
    &&& forall|i: int| 0 <= i < d.params@.len() ==> is_ident(#[trigger] d.params@[i])
    &&& stmt_wf(*d.terms)
}

/// A function context that can be used: declarations well formed, inlined bodies runnable
/// in the language `flags` select.
pub open spec fn func_ctx_wf(c: FuncContext, flags: CompileFlags) -> bool {
    match c {
        FuncContext::Import(_) => true,
        FuncContext::Func(d) => decl_wf(d),
        FuncContext::Inline(i) => runnable(i.terms@) && mode_ok(i.terms@, flags),
    }
}

/// The names of a module context.
pub open spec fn ctx_keys(c: ModuleContext) -> Seq<Seq<char>> {
    Seq::new(c.0@.len(), |i: int| c.0@[i].0@)
}

/// Two function contexts say the same: the same import, the same declaration (name, line,
/// parameters and result variable), or the same inlined function.
pub open spec fn same_fc(a: FuncContext, b: FuncContext) -> bool {
    match (a, b) {
        (FuncContext::Import(x), FuncContext::Import(y)) => x.module@ == y.module@ && x.ident@ == y.ident@,
        (FuncContext::Func(d), FuncContext::Func(e)) => d.ident@ == e.ident@ && d.lno == e.lno && views(d.params@)
            == views(e.params@) && d.ret@ == e.ret@,
        (FuncContext::Inline(i), FuncContext::Inline(j)) => i.lno == j.lno && i.ident@ == j.ident@ && crate::names::str_views(
            i.params@,
        ) == crate::names::str_views(j.params@) && i.ret@ == j.ret@ && i.terms@ == j.terms@,
        _ => false,
    }
}

/// `c1` begins with the entries of `c0`: the same names, saying the same.
pub open spec fn ctx_extends(c1: ModuleContext, c0: ModuleContext) -> bool {
    &&& c1.0@.len() >= c0.0@.len()
    &&& forall|e: int| 0 <= e < c0.0@.len() ==> (#[trigger] c1.0@[e]).0@ == c0.0@[e].0@ && same_fc(c1.0@[e].1, c0.0@[e].1)
}

/// Saying the same is transitive.
pub proof fn lemma_same_fc_trans(a: FuncContext, b: FuncContext, c: FuncContext)
    requires
        same_fc(a, b),
        same_fc(b, c),
    ensures
        same_fc(a, c),
{
}

/// Beginning with the entries of a context that begins with the entries of another.
pub proof fn lemma_extends_trans(a: ModuleContext, b: ModuleContext, c: ModuleContext)
    requires
        ctx_extends(a, b),
        ctx_extends(b, c),
    ensures
        ctx_extends(a, c),
{
    assert forall|e: int| 0 <= e < c.0@.len() implies (#[trigger] a.0@[e]).0@ == c.0@[e].0@ && same_fc(a.0@[e].1, c.0@[e].1) by {
        assert(a.0@[e].0@ == b.0@[e].0@ && same_fc(a.0@[e].1, b.0@[e].1));
        assert(b.0@[e].0@ == c.0@[e].0@ && same_fc(b.0@[e].1, c.0@[e].1));
        lemma_same_fc_trans(a.0@[e].1, b.0@[e].1, c.0@[e].1);
    }
}

/// `i` is where `key` first stands in the context.
pub open spec fn ctx_first(c: ModuleContext, key: Seq<char>, i: int) -> bool {
    &&& 0 <= i < c.0@.len()
    &&& c.0@[i].0@ == key
    &&& forall|j: int| 0 <= j < i ==> c.0@[j].0@ != key
}

/// `c1` is `c0` with `key` standing for `value`: the first entry of `key` is replaced, or,
/// where there is none, a new entry comes last; every other entry stays as it was.
pub open spec fn ctx_put(c0: ModuleContext, c1: ModuleContext, key: Seq<char>, value: FuncContext) -> bool {
    ||| exists|i: int| #[trigger] ctx_first(c0, key, i) && c1.0@.len() == c0.0@.len() && c1.0@[i].0@ == key
        && c1.0@[i].1 == value && forall|j: int| 0 <= j < c0.0@.len() && j != i ==> #[trigger] c1.0@[j] == c0.0@[j]
    ||| !ctx_keys(c0).contains(key) && c1.0@.len() == c0.0@.len() + 1 && c1.0@.last().0@ == key
        && c1.0@.last().1 == value && forall|j: int| 0 <= j < c0.0@.len() ==> #[trigger] c1.0@[j] == c0.0@[j]
}

impl ModuleContext {
    /// Every function context is usable.
    pub open spec fn wf(&self, flags: CompileFlags) -> bool {
        forall|i: int| 0 <= i < self.0@.len() ==> func_ctx_wf(#[trigger] self.0@[i].1, flags)
    }

    /// No function.
    pub fn new() -> (r: ModuleContext)
        ensures
            r.0@.len() == 0,
            forall|f: CompileFlags| r.wf(f),
    {
        ModuleContext(Vec::new())
    }

    fn position(&self, key: &FuncName) -> (r: Option<usize>)
        ensures
            match r {
                Some(i) => ctx_first(*self, key@, i as int),
                None => forall|i: int| 0 <= i < self.0@.len() ==> self.0@[i].0@ != key@,
            },
    {
        let mut i: usize = 0;
        while i < self.0.len()
            invariant
                i <= self.0@.len(),
                forall|j: int| 0 <= j < i ==> self.0@[j].0@ != key@,
            decreases self.0.len() - i,
        {
            if (self.0[i].0).0 == key.0 {
                return Some(i);
            }
            i = i + 1;
        }
        None
    }

    /// Whether `key` names a function.
    pub fn contains_key(&self, key: &FuncName) -> (r: bool)
        ensures
            r == ctx_keys(*self).contains(key@),
    {
        match self.position(key) {
            Some(i) => {
                assert(ctx_keys(*self)[i as int] == key@);
                true
            },
            None => {
                assert(!ctx_keys(*self).contains(key@)) by {
                    if ctx_keys(*self).contains(key@) {
                        let j = choose|j: int| 0 <= j < ctx_keys(*self).len() && ctx_keys(*self)[j] == key@;
                        assert(self.0@[j].0@ == key@);
                    }
                }
                false
            },
        }
    }

    /// What `key` stands for.
    pub fn get(&self, key: &FuncName) -> (r: Option<&FuncContext>)
        ensures
            match r {
                Some(c) => exists|i: int| 0 <= i < self.0@.len() && self.0@[i].0@ == key@ && *c == self.0@[i].1,
                None => !ctx_keys(*self).contains(key@),
            },
            forall|f: CompileFlags| self.wf(f) ==> (r matches Some(c) ==> func_ctx_wf(*c, f)),
    {
        match self.position(key) {
            Some(i) => Some(&self.0[i].1),
            None => {
                assert(!ctx_keys(*self).contains(key@)) by {
                    if ctx_keys(*self).contains(key@) {
                        let j = choose|j: int| 0 <= j < ctx_keys(*self).len() && ctx_keys(*self)[j] == key@;
                        assert(self.0@[j].0@ == key@);
                    }
                }
                None
            },
        }
    }

    /// Lets `key` stand for `value`, replacing (and returning) what it stood for.
    pub fn insert(&mut self, key: FuncName, value: FuncContext) -> (r: Option<FuncContext>)
        ensures
            r is Some <==> ctx_keys(*old(self)).contains(key@),
            ctx_keys(*final(self)) == (if ctx_keys(*old(self)).contains(key@) { ctx_keys(*old(self)) } else { ctx_keys(*old(self)).push(key@) }),
            ctx_put(*old(self), *final(self), key@, value),
            r matches Some(o) ==> exists|i: int| ctx_first(*old(self), key@, i) && o == old(self).0@[i].1,
            forall|flags: CompileFlags| old(self).wf(flags) && func_ctx_wf(value, flags) ==> final(self).wf(flags),
    {
        match self.position(&key) {
            Some(i) => {
                let ghost k = key@;
                let (_, old_value) = self.0.remove(i);
                self.0.insert(i, (key, value));
                proof {
                    assert(ctx_first(*old(self), k, i as int));
                    assert(ctx_keys(*old(self))[i as int] == k);
                    assert(ctx_keys(*self) =~= ctx_keys(*old(self)));
                    assert forall|flags: CompileFlags, j: int| 0 <= j < self.0@.len() && old(self).wf(flags) && func_ctx_wf(value, flags) implies #[trigger] func_ctx_wf(self.0@[j].1, flags) by {
                        if j != i {
                            assert(self.0@[j] == old(self).0@[j]);
                        }
                    }
                }
                Some(old_value)
            },
            None => {
                self.0.push((key, value));
                proof {
                    assert(!ctx_keys(*old(self)).contains(key@)) by {
                        if ctx_keys(*old(self)).contains(key@) {
                            let j = choose|j: int| 0 <= j < ctx_keys(*old(self)).len() && ctx_keys(*old(self))[j] == key@;
                            assert(old(self).0@[j].0@ == key@);
                        }
                    }
                    assert(ctx_keys(*self) =~= ctx_keys(*old(self)).push(key@));
                    assert forall|flags: CompileFlags, j: int| 0 <= j < self.0@.len() && old(self).wf(flags) && func_ctx_wf(value, flags) implies #[trigger] func_ctx_wf(self.0@[j].1, flags) by {
                        if j < old(self).0@.len() {
                            assert(self.0@[j] == old(self).0@[j]);
                        }
                    }
                }
                None
            },
        }
    }
}

/// A copy of a declaration, well formed when it is.
pub fn copy_decl_wf(d: &FuncDecl) -> (r: FuncDecl)
    ensures
        decl_wf(*d) ==> decl_wf(r),
        r.ident@ == d.ident@,
        r.lno == d.lno,
        r.ret@ == d.ret@,
        views(r.params@) == views(d.params@),
        func_free(*r.terms) == func_free(*d.terms),
        forall|f: CompileFlags| #[trigger] lower_ok(*r.terms, f) == lower_ok(*d.terms, f),
{
    let c = copy_decl(d);
    proof {
        assert(views(c.params@).len() == c.params@.len());
        assert(views(d.params@).len() == d.params@.len());
        assert forall|i: int| 0 <= i < c.params@.len() && decl_wf(*d) implies is_ident(#[trigger] c.params@[i]) by {
            assert(c.params@[i]@ == views(c.params@)[i]);
            assert(d.params@[i]@ == views(d.params@)[i]);
            assert(is_ident(d.params@[i]));
        }
    }
    c
}

impl FuncImport {
    /// A copy of the import.
    pub fn copy(&self) -> (r: FuncImport)
        ensures
            r.module@ == self.module@,
            r.ident@ == self.ident@,
    {
        FuncImport { module: self.module.copy(), ident: self.ident.copy() }
    }
}

impl FuncInline {
    /// A copy of the inlined function.
    pub fn copy(&self) -> (r: FuncInline)
        ensures
            r.lno == self.lno,
            r.ident@ == self.ident@,
            crate::names::str_views(r.params@) == crate::names::str_views(self.params@),
            r.ret@ == self.ret@,
            r.terms@ == self.terms@,
    {
        FuncInline {
            lno: self.lno,
            ident: self.ident.clone(),
            params: clone_strings(&self.params),
            ret: self.ret.clone(),
            terms: clone_expr(&self.terms),
        }
    }
}

impl FuncContext {
    /// A copy of the function context.
    pub fn copy(&self) -> (r: FuncContext)
        ensures
            same_fc(r, *self),
            forall|f: CompileFlags| func_ctx_wf(*self, f) ==> func_ctx_wf(r, f),
            self matches FuncContext::Import(i) ==> (r matches FuncContext::Import(j) && j.module@ == i.module@ && j.ident@ == i.ident@),
            self is Func <==> r is Func,
            self is Inline <==> r is Inline,
            self matches FuncContext::Func(d) ==> (r matches FuncContext::Func(e) && e.ident@ == d.ident@ && e.lno == d.lno
                && e.ret@ == d.ret@ && views(e.params@) == views(d.params@) && func_free(*e.terms) == func_free(*d.terms)
                && forall|f: CompileFlags| #[trigger] lower_ok(*e.terms, f) == lower_ok(*d.terms, f)),
            self matches FuncContext::Inline(i) ==> (r matches FuncContext::Inline(j)
                && crate::names::str_views(j.params@) == crate::names::str_views(i.params@) && j.ret@ == i.ret@),
    {
        match self {
            FuncContext::Import(i) => FuncContext::Import(i.copy()),
            FuncContext::Func(d) => FuncContext::Func(copy_decl_wf(d)),
            FuncContext::Inline(i) => FuncContext::Inline(i.copy()),
        }
    }
}

impl ModuleContext {
    /// A copy of the context.
    pub fn copy(&self) -> (r: ModuleContext)
        ensures
            forall|f: CompileFlags| self.wf(f) ==> r.wf(f),
            ctx_keys(r) == ctx_keys(*self),
            r.0@.len() == self.0@.len(),
            forall|j: int| 0 <= j < self.0@.len() ==> same_fc(#[trigger] r.0@[j].1, self.0@[j].1),
    {
        let mut v: Vec<(FuncName, FuncContext)> = Vec::new();
        let mut i: usize = 0;
        while i < self.0.len()
            invariant
                i <= self.0@.len(),
                v@.len() == i,
                forall|j: int| 0 <= j < i ==> (#[trigger] v@[j]).0@ == self.0@[j].0@,
                forall|f: CompileFlags, j: int| 0 <= j < i && func_ctx_wf(self.0@[j].1, f) ==> #[trigger] func_ctx_wf(v@[j].1, f),
                forall|j: int| 0 <= j < i ==> same_fc(#[trigger] v@[j].1, self.0@[j].1),
            decreases self.0.len() - i,
        {
            v.push((self.0[i].0.copy(), self.0[i].1.copy()));
            i = i + 1;
        }
        let r = ModuleContext(v);
        assert(ctx_keys(r) =~= ctx_keys(*self));
        r
    }
}

} // verus!
