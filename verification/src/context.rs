use vstd::prelude::*;
use crate::uint::decimal_string;
use crate::names::{ModuleName, FuncQualName, smol, join_spec};
use crate::fs::Directory;
use crate::flags::CompileFlags;
use crate::modmap::ModuleMap;
use crate::hir::Module;
use crate::parser::module_wf;
use crate::errors::StdResult;
use crate::resolve::{bare, distinct_names, known_names};

verus! {

/// Local state of a stack frame of the compilation.
#[derive(Debug, Clone, Copy, PartialEq, Eq, Structural, Hash)]
pub struct CompileLocalContext {}

impl Default for CompileLocalContext {
    fn default() -> (r: CompileLocalContext)
        ensures
            r == (CompileLocalContext {}),
    {
        CompileLocalContext {}
    }
}

/// A stack frame of the compilation: the function being inlined and its module.
pub struct Frame {
    pub caller: Option<FuncQualName>,
    pub module: ModuleName,
    pub context: CompileLocalContext,
}

impl Frame {
    /// The frame of the main module, outside any function.
    pub fn default() -> (r: Frame)
        ensures
            r.caller is None,
            r.module@ == seq!["fs"@, "main"@],
    {
        Frame { caller: None, module: ModuleName::main(), context: CompileLocalContext {} }
    }

    /// A copy of the frame.
    pub fn copy(&self) -> (r: Frame)
        ensures
            r.module@ == self.module@,
            r.caller is Some <==> self.caller is Some,
            r.caller matches Some(c) ==> c@ == self.caller->Some_0@,
    {
        Frame {
            caller: match &self.caller {
                Some(c) => Some(c.copy()),
                None => None,
            },
            module: self.module.copy(),
            context: self.context,
        }
    }
}

/// The decimal representation of `n`.
pub fn usize_to_string(n: usize) -> (r: String)
    ensures
        r@ == decimal_string(n as nat),
    decreases n,
{
    let d = n % 10;
    let digit = if d == 0 { "0" } else if d == 1 { "1" } else if d == 2 { "2" } else if d == 3 { "3" } else if d == 4 {
        "4"
    } else if d == 5 { "5" } else if d == 6 { "6" } else if d == 7 { "7" } else if d == 8 { "8" } else { "9" };
    proof {
        reveal_strlit("0");
        reveal_strlit("1");
        reveal_strlit("2");
        reveal_strlit("3");
        reveal_strlit("4");
        reveal_strlit("5");
        reveal_strlit("6");
        reveal_strlit("7");
        reveal_strlit("8");
        reveal_strlit("9");
        assert(digit@ == seq![crate::uint::digit_char(d as nat)]);
    }
    if n < 10 {
        String::from_str(digit)
    } else {
        let mut s = usize_to_string(n / 10);
        s.append(digit);
        s
    }
}

/// The inlined name of variable `ident` of function `qual`, inlined for the `count`-th
/// time: `_<first three letters>_<count>_<ident>`.
pub open spec fn spec_prefix_ident(qual: (Seq<Seq<char>>, Seq<char>), count: nat, ident: Seq<char>) -> Seq<char> {
    "_"@ + smol(qual.1) + "_"@ + decimal_string(count) + "_"@ + ident
}

/// Inlined names do not clash: the name of variable `i1` in the `c1`-th inlining of `qual`
/// is that of `i2` in the `c2`-th inlining only when the inlining and the variable are the
/// same.
pub proof fn law_prefix_ident_injective(qual: (Seq<Seq<char>>, Seq<char>), c1: nat, i1: Seq<char>, c2: nat, i2: Seq<char>)
    ensures
        spec_prefix_ident(qual, c1, i1) == spec_prefix_ident(qual, c2, i2) ==> c1 == c2 && i1 == i2,
{
    reveal_strlit("_");
    let a = spec_prefix_ident(qual, c1, i1);
    let b = spec_prefix_ident(qual, c2, i2);
    if a == b {
        let p = "_"@ + smol(qual.1) + "_"@;
        let l = p.len() as int;
        let d1 = decimal_string(c1);
        let d2 = decimal_string(c2);
        crate::parser::lemma_decimal_string(c1);
        crate::parser::lemma_decimal_string(c2);
        assert(a =~= p + d1 + "_"@ + i1);
        assert(b =~= p + d2 + "_"@ + i2);
        if d1.len() < d2.len() {
            assert(a[l + d1.len()] == '_');
            assert(b[l + d1.len()] == d2[d1.len() as int]);
            assert(false);
        }
        if d2.len() < d1.len() {
            assert(b[l + d2.len()] == '_');
            assert(a[l + d2.len()] == d1[d2.len() as int]);
            assert(false);
        }
        assert(d1 =~= d2) by {
            assert forall|k: int| 0 <= k < d1.len() implies d1[k] == d2[k] by {
                assert(a[l + k] == d1[k]);
                assert(b[l + k] == d2[k]);
            }
        }
        assert(i1 =~= i2) by {
            assert(i1.len() == i2.len());
            assert forall|k: int| 0 <= k < i1.len() implies i1[k] == i2[k] by {
                assert(a[l + d1.len() + 1 + k] == i1[k]);
                assert(b[l + d2.len() + 1 + k] == i2[k]);
            }
        }
    }
}

/// The inlined name of variable `ident` of function `qual`, inlined for the `count`-th time.
pub fn prefix_ident(qual: &FuncQualName, count: &usize, ident: &String) -> (r: String)
    ensures
        r@ == spec_prefix_ident(qual@, *count as nat, ident@),
{
    let mut s = String::from_str("_");
    s.append(qual.func_smol().as_str());
    s.append("_");
    s.append(usize_to_string(*count).as_str());
    s.append("_");
    s.append(ident.as_str());
    s
}

/// The name of the `n`-th private variable: `_<n>`.
pub open spec fn private_name(n: nat) -> Seq<char> {
    "_"@ + decimal_string(n)
}

/// The state of a compilation: flags, files, modules, fresh-name counters and the stack
/// of functions being inlined.
pub struct CompileContext {
    pub counter: usize,
    pub inline_counter: Vec<(FuncQualName, usize)>,
    pub fs: Directory,
    pub flags: CompileFlags,
    pub modules: ModuleMap,
    pub stack: Vec<Frame>,
    pub depth_bound: usize,
}

impl CompileContext {
    /// The number of private variables handed out so far.
    pub open spec fn counter(&self) -> nat {
        self.counter as nat
    }

    /// How many more functions can be entered.
    pub open spec fn fuel(&self) -> nat {
        if self.stack@.len() < self.depth_bound { (self.depth_bound - self.stack@.len()) as nat } else { 0 }
    }

    /// The depth of the stack of functions being inlined.
    pub open spec fn depth(&self) -> nat {
        self.stack@.len()
    }

    /// The modules are usable.
    pub open spec fn wf(&self) -> bool {
        self.modules.wf(self.flags)
    }

    /// The context of compiling the module `main` with `flags`: its module map is built
    /// from `main`, the modules of `fs` and the library `lib` (see `ModuleMap::from`).
    pub fn new(main: Module, flags: CompileFlags, fs: Option<Directory>, lib: Option<Directory>) -> (r: StdResult<CompileContext>)
        requires
            module_wf(main),
        ensures
            r matches Ok(c) ==> c.wf() && c.flags == flags && c.counter() == 0 && c.depth() == 0 && c.fuel() > 0,
            (fs matches Some(d) ==> d.0@.len() == 0) && bare(main) ==> r is Ok,
            !distinct_names(known_names(main)) ==> r is Err,
    {
        let fs = match fs {
            Some(d) => d,
            None => Directory::new(),
        };
        let lib = match lib {
            Some(d) => d,
            None => Directory::new(),
        };
        let fs_copy = fs.copy();
        let modules = ModuleMap::from(main, fs_copy, lib)?;
        Ok(CompileContext::with_modules(flags, fs, modules, usize::MAX))
    }

    /// A context over `modules`, with no private variable handed out yet and an empty stack;
    /// at most `depth_bound` functions can be entered at once.
    pub fn with_modules(flags: CompileFlags, fs: Directory, modules: ModuleMap, depth_bound: usize) -> (r: CompileContext)
        ensures
            r.flags == flags,
            r.modules == modules,
            r.counter() == 0,
            r.depth() == 0,
            r.fuel() == depth_bound,
    {
        CompileContext { counter: 0, inline_counter: Vec::new(), fs, flags, modules, stack: Vec::new(), depth_bound }
    }

    /// Whether another function can be entered.
    pub fn has_fuel(&self) -> (r: bool)
        ensures
            r == (self.fuel() > 0),
    {
        self.stack.len() < self.depth_bound
    }

    /// Enters the function `caller` of `module`.
    pub fn dive(&mut self, caller: FuncQualName, module: ModuleName)
        requires
            old(self).fuel() > 0,
        ensures
            final(self).fuel() + 1 == old(self).fuel(),
            final(self).depth() == old(self).depth() + 1,
            final(self).depth() <= final(self).depth_bound,
            final(self).depth_bound == old(self).depth_bound,
            final(self).flags == old(self).flags,
            final(self).modules == old(self).modules,
            final(self).counter() == old(self).counter(),
            final(self).inline_counter == old(self).inline_counter,
            final(self).stack@ == old(self).stack@.push(Frame { caller: Some(caller), module, context: CompileLocalContext {} }),
    {
        self.stack.push(Frame { caller: Some(caller), module, context: CompileLocalContext {} });
    }

    /// Leaves the function entered last.
    pub fn rise(&mut self)
        requires
            old(self).depth() > 0,
            old(self).depth() <= old(self).depth_bound,
        ensures
            final(self).fuel() == old(self).fuel() + 1,
            final(self).depth() + 1 == old(self).depth(),
            final(self).depth_bound == old(self).depth_bound,
            final(self).flags == old(self).flags,
            final(self).modules == old(self).modules,
            final(self).counter() == old(self).counter(),
            final(self).stack@ == old(self).stack@.drop_last(),
            final(self).inline_counter == old(self).inline_counter,
    {
        self.stack.pop();
    }

    /// A copy of the frame of the function entered last (the main module's frame when none).
    pub fn get_current_frame(&self) -> (r: Frame)
        ensures
            self.depth() == 0 ==> r.module@ == seq!["fs"@, "main"@] && r.caller is None,
            self.depth() > 0 ==> r.module@ == self.stack@.last().module@
                && (r.caller is Some <==> self.stack@.last().caller is Some)
                && (r.caller matches Some(c) ==> c@ == self.stack@.last().caller->Some_0@),
    {
        if self.stack.len() == 0 {
            Frame::default()
        } else {
            self.stack[self.stack.len() - 1].copy()
        }
    }

    /// The frames of the functions being inlined, outermost first.
    pub fn get_stack(&self) -> (r: &Vec<Frame>)
        ensures
            r@.len() == self.depth(),
            *r == self.stack,
    {
        &self.stack
    }

    /// Hands out the next private variable name `_<n>`. (Once every `usize` has been
    /// handed out, the last name is handed out again.)
    pub fn priv_ident(&mut self) -> (r: String)
        ensures
            r@ == private_name(old(self).counter()),
            final(self).counter() == (if old(self).counter() < usize::MAX { old(self).counter() + 1 } else { old(self).counter() }),
            final(self).flags == old(self).flags,
            final(self).modules == old(self).modules,
            final(self).stack == old(self).stack,
            final(self).depth_bound == old(self).depth_bound,
            final(self).inline_counter == old(self).inline_counter,
    {
        let mut id = String::from_str("_");
        id.append(usize_to_string(self.counter).as_str());
        if self.counter < usize::MAX {
            self.counter = self.counter + 1;
        }
        id
    }

    /// How many times `func` has been inlined, counting this time: one more than before
    /// (stopping at `usize::MAX`); the counts of other functions stay.
    pub fn incr_inline(&mut self, func: FuncQualName) -> (r: usize)
        ensures
            final(self).flags == old(self).flags,
            final(self).modules == old(self).modules,
            final(self).stack == old(self).stack,
            final(self).depth_bound == old(self).depth_bound,
            final(self).counter() == old(self).counter(),
            r == (if inline_count(old(self).inline_counter@, func@) < usize::MAX {
                inline_count(old(self).inline_counter@, func@) + 1
            } else {
                inline_count(old(self).inline_counter@, func@)
            }),
            inline_count(final(self).inline_counter@, func@) == r,
            forall|g: (Seq<Seq<char>>, Seq<char>)| g != func@
                ==> inline_count(final(self).inline_counter@, g) == inline_count(old(self).inline_counter@, g),
    {
        let mut i: usize = 0;
        while i < self.inline_counter.len()
            invariant
                i <= self.inline_counter@.len(),
                self.flags == old(self).flags,
                self.modules == old(self).modules,
                self.stack == old(self).stack,
                self.depth_bound == old(self).depth_bound,
                self.counter == old(self).counter,
                self.inline_counter == old(self).inline_counter,
                forall|j: int| 0 <= j < i ==> (#[trigger] self.inline_counter@[j]).0@ != func@,
            decreases self.inline_counter.len() - i,
        {
            if self.inline_counter[i].0.equals(&func) {
                let cur = self.inline_counter[i].1;
                let next = if cur < usize::MAX { cur + 1 } else { cur };
                let ghost s = self.inline_counter@;
                proof {
                    lemma_count_update(s, i as int, func@, (func, next));
                }
                self.inline_counter.set(i, (func, next));
                return next;
            }
            i = i + 1;
        }
        proof {
            lemma_count_push(self.inline_counter@, func@, (func, 1usize));
        }
        self.inline_counter.push((func, 1));
        1
    }
}

/// How many times the function `f` has been inlined: the count of its first entry, 0
/// where it has none.
pub open spec fn inline_count(s: Seq<(FuncQualName, usize)>, f: (Seq<Seq<char>>, Seq<char>)) -> nat
    decreases s.len(),
{
    if s.len() == 0 {
        0
    } else if s[0].0@ == f {
        s[0].1 as nat
    } else {
        inline_count(s.drop_first(), f)
    }
}

/// The number of the next inlining of `f`: one more than the count, unless that is full.
pub open spec fn next_count(s: Seq<(FuncQualName, usize)>, f: (Seq<Seq<char>>, Seq<char>)) -> nat {
    if inline_count(s, f) < usize::MAX { inline_count(s, f) + 1 } else { inline_count(s, f) }
}

/// Setting the first entry of `f` sets its count and keeps the others.
proof fn lemma_count_update(s: Seq<(FuncQualName, usize)>, i: int, f: (Seq<Seq<char>>, Seq<char>), x: (FuncQualName, usize))
    requires
        0 <= i < s.len(),
        forall|j: int| 0 <= j < i ==> (#[trigger] s[j]).0@ != f,
        s[i].0@ == f,
        x.0@ == f,
    ensures
        inline_count(s, f) == s[i].1,
        inline_count(s.update(i, x), f) == x.1,
        forall|g: (Seq<Seq<char>>, Seq<char>)| g != f ==> inline_count(s.update(i, x), g) == inline_count(s, g),
    decreases i,
{
    if i > 0 {
        assert(s.update(i, x).drop_first() =~= s.drop_first().update(i - 1, x));
        assert forall|j: int| 0 <= j < i - 1 implies (#[trigger] s.drop_first()[j]).0@ != f by {
            assert(s.drop_first()[j] == s[j + 1]);
        }
        lemma_count_update(s.drop_first(), i - 1, f, x);
        assert(s[0].0@ != f);
        assert forall|g: (Seq<Seq<char>>, Seq<char>)| g != f implies inline_count(s.update(i, x), g) == inline_count(s, g) by {
            let u = s.update(i, x);
            assert(u[0] == s[0]);
            assert(u.drop_first() == s.drop_first().update(i - 1, x));
            assert(inline_count(s.drop_first().update(i - 1, x), g) == inline_count(s.drop_first(), g));
        }
    } else {
        assert(s.update(0, x).drop_first() =~= s.drop_first());
        assert forall|g: (Seq<Seq<char>>, Seq<char>)| g != f implies inline_count(s.update(i, x), g) == inline_count(s, g) by {
            let u = s.update(0, x);
            assert(u[0] == x);
            assert(u.drop_first() == s.drop_first());
        }
    }
}

/// Adding the first entry of `f` gives its count and keeps the others.
proof fn lemma_count_push(s: Seq<(FuncQualName, usize)>, f: (Seq<Seq<char>>, Seq<char>), x: (FuncQualName, usize))
    requires
        forall|j: int| 0 <= j < s.len() ==> (#[trigger] s[j]).0@ != f,
        x.0@ == f,
    ensures
        inline_count(s, f) == 0,
        inline_count(s.push(x), f) == x.1,
        forall|g: (Seq<Seq<char>>, Seq<char>)| g != f ==> inline_count(s.push(x), g) == inline_count(s, g),
    decreases s.len(),
{
    if s.len() > 0 {
        assert(s.push(x).drop_first() =~= s.drop_first().push(x));
        assert forall|j: int| 0 <= j < s.len() - 1 implies (#[trigger] s.drop_first()[j]).0@ != f by {
            assert(s.drop_first()[j] == s[j + 1]);
        }
        lemma_count_push(s.drop_first(), f, x);
        assert forall|g: (Seq<Seq<char>>, Seq<char>)| g != f implies inline_count(s.push(x), g) == inline_count(s, g) by {
            let u = s.push(x);
            assert(u[0] == s[0]);
            assert(u.drop_first() == s.drop_first().push(x));
            assert(inline_count(s.drop_first().push(x), g) == inline_count(s.drop_first(), g));
        }
    } else {
        assert(s.push(x).drop_first() =~= Seq::<(FuncQualName, usize)>::empty());
        assert forall|g: (Seq<Seq<char>>, Seq<char>)| g != f implies inline_count(s.push(x), g) == inline_count(s, g) by {
            let u = s.push(x);
            assert(u[0] == x);
            assert(u.drop_first().len() == 0);
            assert(inline_count(u.drop_first(), g) == 0);
            assert(x.0@ != g);
        }
    }
}

} // verus!
