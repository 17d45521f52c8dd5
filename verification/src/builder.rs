use vstd::prelude::*;
use crate::expr::{Expr, SExpr, Control, LineNo, runnable, mode_ok, is_flat, spec_flatten, law_flatten_idempotent};
use crate::hir::{Module, Hir};
use crate::parser::{LoopParser, ParseSettings, module_wf, blank, module_lnos_are, Stmt, Decl, module_ok, module_text,
    module_parsed};
use crate::errors::{Error, StdResult};
use crate::flags::CompileFlags;
use crate::fs::Directory;
use crate::context::CompileContext;
use crate::lower::{finish, lowered, keeps, cst};
use crate::lowering::{func_free, lower_ok, user_zero};
use crate::resolve::{bare, distinct_names, known_names};
use crate::semantics::compiles_to;
use crate::lowering::lowers_to;
use crate::exec::{Exec, law_runnable_steppable, spec_new};
use crate::runtime::{Runtime, start_vars};
use crate::vars::Variables;

verus! {

/// A compiled program: runnable, in the language the flags select, and flat.
pub open spec fn compiled(r: StdResult<Expr>, flags: CompileFlags) -> bool {
    r matches Ok(e) ==> runnable(e@) && mode_ok(e@, flags) && is_flat(e@)
}

/// The flags of an optional choice: LOOP and WHILE when none is given.
pub open spec fn flags_or_default(flags: Option<CompileFlags>) -> CompileFlags {
    match flags {
        Some(f) => f,
        None => CompileFlags { bits: crate::flags::LOOP_AND_WHILE },
    }
}

/// A module that needs nothing but itself: it neither imports nor declares nor calls a
/// function, and its directory of imports holds nothing.
pub open spec fn compiles_alone(m: Module, fs: Option<Directory>) -> bool {
    &&& bare(m)
    &&& func_free(m.code)
    &&& fs matches Some(d) ==> d.0@.len() == 0
}

/// A source of separators only (blanks, line breaks, `;`), with an empty directory of
/// imports if any.
pub open spec fn empty_program(source: Seq<char>, fs: Option<Directory>) -> bool {
    &&& blank(source)
    &&& source.len() < usize::MAX
    &&& fs matches Some(d) ==> d.0@.len() == 0
}

/// A source written out from declarations and statements that the parser reads back.
pub open spec fn readable(source: Seq<char>) -> bool {
    &&& exists|ds: Seq<Decl>, sts: Seq<Stmt>| module_ok(ds, sts) && module_text(ds, sts) == source
    &&& source.len() < usize::MAX
}

/// `m` is what the parser reads `source` as: the declarations and statements written out.
pub open spec fn read_as(source: Seq<char>, m: Module) -> bool {
    exists|ds: Seq<Decl>, sts: Seq<Stmt>| #[trigger] module_text(ds, sts) == source && module_parsed(m, ds, sts)
}

/// What compiling the module `m` gives, as `compile` states it: the compiled program of
/// its code on success; success exactly when the code lowers (for a module that needs
/// nothing but itself); failure when a name is known twice.
pub open spec fn compile_outcome(m: Module, flags: CompileFlags, fs: Option<Directory>, r: StdResult<Expr>) -> bool {
    &&& r matches Ok(e) ==> compiles_to(m.code, flags, e@)
    &&& compiles_alone(m, fs) ==> (r is Ok <==> lower_ok(m.code, flags) && !(cst(flags) && user_zero(m.code)))
    &&& !distinct_names(known_names(m)) ==> r is Err
}

/// What preparing the module `m` to run gives: a runtime at the start of the compiled
/// program of its code, with the variables `locals`; success as for `compile_outcome`.
pub open spec fn run_outcome(m: Module, flags: CompileFlags, fs: Option<Directory>, locals: Option<Variables>,
    r: StdResult<Runtime>) -> bool {
    &&& r matches Ok(rt) ==> exists|e: SExpr| #[trigger] compiles_to(m.code, flags, e) && rt.state() == spec_new(e)
        && rt.vars() == start_vars(locals)
    &&& compiles_alone(m, fs) ==> (r is Ok <==> lower_ok(m.code, flags) && !(cst(flags) && user_zero(m.code)))
    &&& !distinct_names(known_names(m)) ==> r is Err
}

/// Parsing, compiling and running programs.
pub struct Builder {}

impl Builder {
    /// Parses a source into a module; with `lno_overwrite`, every statement gets that line
    /// number.
    pub fn parse(source: &str, lno_overwrite: Option<LineNo>) -> (r: Result<Module, Error>)
        ensures
            r matches Ok(m) ==> module_wf(m),
            r matches Err(e) ==> e.variant is Parse,
            blank(source@) && source@.len() < usize::MAX ==> (r matches Ok(m) && m.imp@.len() == 0
                && m.decl@.len() == 0 && m.code == Hir::NoOp),
            lno_overwrite matches Some(l) ==> (r matches Ok(m) ==> module_lnos_are(m, l)),
            (exists|ds: Seq<Decl>, sts: Seq<Stmt>| module_ok(ds, sts) && module_text(ds, sts) == source@)
                && source@.len() < usize::MAX ==> (r matches Ok(m) && m.imp@.len() == 0
                && exists|ds: Seq<Decl>, sts: Seq<Stmt>| #[trigger] module_text(ds, sts) == source@
                && module_parsed(m, ds, sts)),
    {
        LoopParser::parse(source, &ParseSettings::new(lno_overwrite))
    }

    /// Compiles a parsed module (with `fs` as the directory of its imports) to a runnable
    /// program. No library is given here, so an import from `std` is not found; a caller
    /// that has the library passes it to `compile_with_lib`.
    pub fn compile(module: &mut Module, flags: Option<CompileFlags>, fs: Option<Directory>) -> (r: StdResult<Expr>)
        requires
            module_wf(*old(module)),
        ensures
            compiled(r, flags_or_default(flags)),
            *final(module) == *old(module),
            compiles_alone(*old(module), fs) ==> (r is Ok <==> lower_ok(old(module).code, flags_or_default(flags))
                && !(cst(flags_or_default(flags)) && user_zero(old(module).code))),
            r matches Ok(e) ==> compiles_to(old(module).code, flags_or_default(flags), e@),
            !distinct_names(known_names(*old(module))) ==> r is Err,
    {
        Builder::compile_with_lib(module, flags, fs, None)
    }

    /// Compiles a parsed module, with `fs` as the directory of its imports and `lib` as the
    /// library (the modules outside `fs`).
    pub fn compile_with_lib(module: &mut Module, flags: Option<CompileFlags>, fs: Option<Directory>,
        lib: Option<Directory>) -> (r: StdResult<Expr>)
        requires
            module_wf(*old(module)),
        ensures
            compiled(r, flags_or_default(flags)),
            *final(module) == *old(module),
            compiles_alone(*old(module), fs) ==> (r is Ok <==> lower_ok(old(module).code, flags_or_default(flags))
                && !(cst(flags_or_default(flags)) && user_zero(old(module).code))),
            r matches Ok(e) ==> compiles_to(old(module).code, flags_or_default(flags), e@),
            !distinct_names(known_names(*old(module))) ==> r is Err,
    {
        let flags = match flags {
            Some(f) => f,
            None => CompileFlags { bits: crate::flags::LOOP_AND_WHILE },
        };
        let copy = Module {
            imp: crate::resolve::copy_imps(&module.imp),
            decl: crate::resolve::copy_decls(&module.decl),
            code: crate::hir::copy_hir(&module.code),
        };
        proof {
            assert(known_names(copy) =~= known_names(*old(module)));
        }
        let mut context = CompileContext::new(copy, flags, fs, lib)?;
        Builder::ext_compile(module, &mut context)
    }

    /// Compiles a parsed module in a given context: lowering, the constant check, then
    /// flattening.
    pub fn ext_compile(module: &mut Module, context: &mut CompileContext) -> (r: StdResult<Expr>)
        requires
            module_wf(*old(module)),
            old(context).wf(),
        ensures
            compiled(r, old(context).flags),
            keeps(*old(context), *final(context)),
            *final(module) == *old(module),
            func_free(old(module).code) ==> (r is Ok <==> (lower_ok(old(module).code, old(context).flags)
                && !(cst(old(context).flags) && user_zero(old(module).code)))),
            r matches Ok(e) ==> compiles_to(old(module).code, old(context).flags, e@),
    {
        let ghost flags = context.flags;
        let lowered = module.code.lower(context)?;
        let r = finish(lowered, context);
        proof {
            if r is Ok {
                law_flatten_idempotent(lowered@);
                assert(lowers_to(module.code, flags, lowered@));
            }
        }
        r
    }

    /// The runtime of a compiled program, with no variable set.
    pub fn eval(ast: Expr) -> (r: Runtime)
        requires
            runnable(ast@),
        ensures
            r.wf(),
            r.running(),
            r.state() == spec_new(ast@),
            r.vars() == start_vars(None),
    {
        Builder::ext_eval(ast, None)
    }

    /// The runtime of a compiled program, with the variables `locals` set.
    pub fn ext_eval(ast: Expr, locals: Option<Variables>) -> (r: Runtime)
        requires
            runnable(ast@),
        ensures
            r.wf(),
            r.running(),
            r.state() == crate::exec::spec_new(ast@),
            r.vars() == crate::runtime::start_vars(locals),
    {
        proof {
            law_runnable_steppable(ast@);
        }
        Runtime::new(Exec::new(ast), locals)
    }

    /// Parses and compiles a source.
    pub fn parse_and_compile(source: &str, flags: Option<CompileFlags>, fs: Option<Directory>) -> (r: StdResult<Expr>)
        ensures
            compiled(r, flags_or_default(flags)),
            empty_program(source@, fs) ==> r is Ok,
            readable(source@) ==> exists|m: Module| read_as(source@, m) && #[trigger] compile_outcome(m, flags_or_default(flags), fs, r),
    {
        let mut module = match Builder::parse(source, None) {
            Ok(m) => m,
            Err(e) => {
                let mut es: Vec<Error> = Vec::new();
                es.push(e);
                return Err(es);
            },
        };
        let ghost m0 = module;
        let r = Builder::compile(&mut module, flags, fs);
        proof {
            if readable(source@) {
                assert(read_as(source@, m0));
                assert(compile_outcome(m0, flags_or_default(flags), fs, r));
            }
        }
        r
    }

    /// Parses and compiles a source in a given context, every statement with the line
    /// number `lno` when given.
    pub fn ext_parse_and_compile(source: &str, context: &mut CompileContext, lno: Option<LineNo>) -> (r: StdResult<Expr>)
        requires
            old(context).wf(),
        ensures
            compiled(r, old(context).flags),
            keeps(*old(context), *final(context)),
            blank(source@) && source@.len() < usize::MAX ==> r is Ok,
    {
        let mut module = match Builder::parse(source, lno) {
            Ok(m) => m,
            Err(e) => {
                let mut es: Vec<Error> = Vec::new();
                es.push(e);
                return Err(es);
            },
        };
        Builder::ext_compile(&mut module, context)
    }

    /// Parses, compiles and prepares a source to run.
    pub fn all(source: &str, flags: Option<CompileFlags>, fs: Option<Directory>) -> (r: StdResult<Runtime>)
        ensures
            r matches Ok(rt) ==> rt.wf() && rt.running(),
            empty_program(source@, fs) ==> r is Ok,
            readable(source@) ==> exists|m: Module| read_as(source@, m) && #[trigger] run_outcome(m, flags_or_default(flags), fs, None, r),
    {
        let c = Builder::parse_and_compile(source, flags, fs);
        let r = match c {
            Ok(ast) => Ok(Builder::eval(ast)),
            Err(es) => Err(es),
        };
        proof {
            if readable(source@) {
                let m = choose|m: Module| read_as(source@, m) && #[trigger] compile_outcome(m, flags_or_default(flags), fs, c);
                if c is Ok {
                    assert(compiles_to(m.code, flags_or_default(flags), c->Ok_0@));
                }
                assert(run_outcome(m, flags_or_default(flags), fs, None, r));
            }
        }
        r
    }

    /// Parses, compiles and prepares a source to run, with the variables `locals` set.
    pub fn ext_all(source: &str, flags: Option<CompileFlags>, locals: Option<Variables>, fs: Option<Directory>) -> (r: StdResult<Runtime>)
        ensures
            r matches Ok(rt) ==> rt.wf() && rt.running() && rt.vars() == crate::runtime::start_vars(locals),
            empty_program(source@, fs) ==> r is Ok,
            readable(source@) ==> exists|m: Module| read_as(source@, m) && #[trigger] run_outcome(m, flags_or_default(flags), fs, locals, r),
    {
        let c = Builder::parse_and_compile(source, flags, fs);
        let r = match c {
            Ok(ast) => Ok(Builder::ext_eval(ast, locals)),
            Err(es) => Err(es),
        };
        proof {
            if readable(source@) {
                let m = choose|m: Module| read_as(source@, m) && #[trigger] compile_outcome(m, flags_or_default(flags), fs, c);
                if c is Ok {
                    assert(compiles_to(m.code, flags_or_default(flags), c->Ok_0@));
                }
                assert(run_outcome(m, flags_or_default(flags), fs, locals, r));
            }
        }
        r
    }
}

} // verus!
