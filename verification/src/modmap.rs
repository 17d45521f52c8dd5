use vstd::prelude::*;
use crate::names::{ModuleName, FuncName};
use crate::modctx::{ModuleContext, FuncContext, func_ctx_wf, ctx_put, ctx_keys};
use crate::flags::CompileFlags;

verus! {

/// `i` is where the module `key` first stands in the entries `m`.
pub open spec fn map_first(m: Seq<(ModuleName, ModuleContext)>, key: Seq<Seq<char>>, i: int) -> bool {
    &&& 0 <= i < m.len()
    &&& m[i].0@ == key
    &&& forall|j: int| 0 <= j < i ==> m[j].0@ != key
}

/// The names of the modules of a map, in order.
pub open spec fn mod_keys(m: ModuleMap) -> Seq<Seq<Seq<char>>> {
    Seq::new(m.0@.len(), |i: int| m.0@[i].0@)
}

/// The first entry of the module `key` in `m` knows the function `name`.
pub open spec fn map_has(m: Seq<(ModuleName, ModuleContext)>, key: Seq<Seq<char>>, name: Seq<char>) -> bool {
    exists|p: int| #[trigger] map_first(m, key, p) && ctx_keys(m[p].1).contains(name)
}

/// A module is first at one place only.
pub proof fn lemma_map_first_unique(m: Seq<(ModuleName, ModuleContext)>, key: Seq<Seq<char>>, p: int, q: int)
    requires
        map_first(m, key, p),
        map_first(m, key, q),
    ensures
        p == q,
{
}

/// Giving the module `key` the context `c` (over its first entry, or as a new last one)
/// keeps what the first entries of the other modules know, and makes `c` the first entry
/// of `key`.
pub proof fn lemma_map_give(m0: Seq<(ModuleName, ModuleContext)>, m1: Seq<(ModuleName, ModuleContext)>,
    key: Seq<Seq<char>>, c: ModuleContext)
    requires
        (exists|i: int| #[trigger] map_first(m0, key, i) && m1.len() == m0.len() && m1[i].0@ == key && m1[i].1 == c
            && forall|j: int| 0 <= j < m0.len() && j != i ==> m1[j] == m0[j])
        || ((forall|j: int| 0 <= j < m0.len() ==> m0[j].0@ != key) && m1.len() == m0.len() + 1
            && m1[m0.len() as int].0@ == key && m1[m0.len() as int].1 == c && forall|j: int| 0 <= j < m0.len() ==> m1[j] == m0[j]),
    ensures
        forall|k2: Seq<Seq<char>>, n: Seq<char>| k2 != key && map_has(m0, k2, n) ==> #[trigger] map_has(m1, k2, n),
        exists|p: int| #[trigger] map_first(m1, key, p) && m1[p].1 == c,
{
    if exists|i: int| #[trigger] map_first(m0, key, i) && m1.len() == m0.len() && m1[i].0@ == key && m1[i].1 == c
        && forall|j: int| 0 <= j < m0.len() && j != i ==> m1[j] == m0[j] {
        let i = choose|i: int| #[trigger] map_first(m0, key, i) && m1.len() == m0.len() && m1[i].0@ == key && m1[i].1 == c
            && forall|j: int| 0 <= j < m0.len() && j != i ==> m1[j] == m0[j];
        assert forall|j: int| 0 <= j < i implies m1[j].0@ != key by {
            assert(m1[j] == m0[j]);
        }
        assert(map_first(m1, key, i));
        assert forall|k2: Seq<Seq<char>>, n: Seq<char>| k2 != key && map_has(m0, k2, n) implies #[trigger] map_has(m1, k2, n) by {
            let p = choose|p: int| #[trigger] map_first(m0, k2, p) && ctx_keys(m0[p].1).contains(n);
            assert(p != i);
            assert(m1[p] == m0[p]);
            assert forall|j: int| 0 <= j < p implies m1[j].0@ != k2 by {
                if j != i {
                    assert(m1[j] == m0[j]);
                }
            }
            assert(map_first(m1, k2, p));
        }
    } else {
        let i = m0.len() as int;
        assert forall|j: int| 0 <= j < i implies m1[j].0@ != key by {
            assert(m1[j] == m0[j]);
        }
        assert(map_first(m1, key, i));
        assert forall|k2: Seq<Seq<char>>, n: Seq<char>| k2 != key && map_has(m0, k2, n) implies #[trigger] map_has(m1, k2, n) by {
            let p = choose|p: int| #[trigger] map_first(m0, k2, p) && ctx_keys(m0[p].1).contains(n);
            assert(m1[p] == m0[p]);
            assert forall|j: int| 0 <= j < p implies m1[j].0@ != k2 by {
                assert(m1[j] == m0[j]);
            }
            assert(map_first(m1, k2, p));
        }
    }
}

/// Giving the module `key` a context leaves where every other module first stands, and
/// what that entry holds.
pub proof fn lemma_map_keep(m0: Seq<(ModuleName, ModuleContext)>, m1: Seq<(ModuleName, ModuleContext)>,
    key: Seq<Seq<char>>, c: ModuleContext)
    requires
        (exists|i: int| #[trigger] map_first(m0, key, i) && m1.len() == m0.len() && m1[i].0@ == key && m1[i].1 == c
            && forall|j: int| 0 <= j < m0.len() && j != i ==> m1[j] == m0[j])
        || ((forall|j: int| 0 <= j < m0.len() ==> m0[j].0@ != key) && m1.len() == m0.len() + 1
            && m1[m0.len() as int].0@ == key && m1[m0.len() as int].1 == c && forall|j: int| 0 <= j < m0.len() ==> m1[j] == m0[j]),
    ensures
        forall|k2: Seq<Seq<char>>, p: int| k2 != key ==> (#[trigger] map_first(m1, k2, p) <==> map_first(m0, k2, p)),
        forall|k2: Seq<Seq<char>>, p: int| k2 != key && #[trigger] map_first(m0, k2, p) ==> m1[p] == m0[p],
{
    if exists|i: int| #[trigger] map_first(m0, key, i) && m1.len() == m0.len() && m1[i].0@ == key && m1[i].1 == c
        && forall|j: int| 0 <= j < m0.len() && j != i ==> m1[j] == m0[j] {
        let i = choose|i: int| #[trigger] map_first(m0, key, i) && m1.len() == m0.len() && m1[i].0@ == key && m1[i].1 == c
            && forall|j: int| 0 <= j < m0.len() && j != i ==> m1[j] == m0[j];
        assert forall|k2: Seq<Seq<char>>, p: int| k2 != key implies (#[trigger] map_first(m1, k2, p) <==> map_first(m0, k2, p)) by {
            if 0 <= p < m0.len() {
                assert forall|j: int| 0 <= j <= p implies (m1[j].0@ == k2 <==> m0[j].0@ == k2) by {
                    if j != i {
                        assert(m1[j] == m0[j]);
                    }
                }
            }
        }
        assert forall|k2: Seq<Seq<char>>, p: int| k2 != key && #[trigger] map_first(m0, k2, p) implies m1[p] == m0[p] by {
            assert(p != i);
        }
    } else {
        assert forall|k2: Seq<Seq<char>>, p: int| k2 != key implies (#[trigger] map_first(m1, k2, p) <==> map_first(m0, k2, p)) by {
            if 0 <= p < m0.len() {
                assert forall|j: int| 0 <= j <= p implies m1[j] == m0[j] by {
                }
            }
        }
    }
}

/// The modules of a compilation, each with the functions known in it.
#[derive(Debug)]
pub struct ModuleMap(pub Vec<(ModuleName, ModuleContext)>);

impl ModuleMap {
    /// Every module context is usable.
    pub open spec fn wf(&self, flags: CompileFlags) -> bool {
        forall|i: int| 0 <= i < self.0@.len() ==> (#[trigger] self.0@[i]).1.wf(flags)
    }

    /// No module.
    pub fn new() -> (r: ModuleMap)
        ensures
            r.0@.len() == 0,
            forall|f: CompileFlags| r.wf(f),
    {
        ModuleMap(Vec::new())
    }

    fn position(&self, key: &ModuleName) -> (r: Option<usize>)
        ensures
            match r {
                Some(i) => map_first(self.0@, key@, i as int),
                None => forall|i: int| 0 <= i < self.0@.len() ==> self.0@[i].0@ != key@,
            },
    {
        let mut i: usize = 0;
        while i < self.0.len()
            invariant
                i <= self.0@.len(),
                forall|j: int| 0 <= j < i ==> self.0@[j].0@ != key@,
            decreases self.0.len() - i,
        {
            if self.0[i].0.equals(key) {
                return Some(i);
            }
            i = i + 1;
        }
        None
    }

    /// Whether the module `key` is known.
    pub fn contains_key(&self, key: &ModuleName) -> (r: bool)
        ensures
            r == exists|i: int| 0 <= i < self.0@.len() && self.0@[i].0@ == key@,
    {
        self.position(key).is_some()
    }

    /// The functions of the module `key`.
    pub fn get(&self, key: &ModuleName) -> (r: Option<&ModuleContext>)
        ensures
            match r {
                Some(c) => exists|i: int| 0 <= i < self.0@.len() && self.0@[i].0@ == key@ && *c == self.0@[i].1,
                None => forall|i: int| 0 <= i < self.0@.len() ==> self.0@[i].0@ != key@,
            },
            r matches Some(c) ==> exists|i: int| #[trigger] map_first(self.0@, key@, i) && *c == self.0@[i].1,
            forall|f: CompileFlags| self.wf(f) ==> (r matches Some(c) ==> c.wf(f)),
    {
        match self.position(key) {
            Some(i) => Some(&self.0[i].1),
            None => None,
        }
    }

    /// Gives the module `key` the functions `value`, replacing (and returning) those it had.
    pub fn insert(&mut self, key: ModuleName, value: ModuleContext) -> (r: Option<ModuleContext>)
        ensures
            forall|flags: CompileFlags| old(self).wf(flags) && value.wf(flags) ==> final(self).wf(flags),
            (r is Some) == (exists|i: int| 0 <= i < old(self).0@.len() && old(self).0@[i].0@ == key@),
            r matches Some(o) ==> exists|i: int| #[trigger] map_first(old(self).0@, key@, i) && o == old(self).0@[i].1
                && final(self).0@ == old(self).0@.update(i, (key, value)),
            r is None ==> final(self).0@ == old(self).0@.push((key, value)),
    {
        match self.position(&key) {
            Some(i) => {
                let ghost kv = (key, value);
                let (_, old_value) = self.0.remove(i);
                self.0.insert(i, (key, value));
                proof {
                    assert(self.0@ =~= old(self).0@.update(i as int, kv));
                    assert forall|flags: CompileFlags, j: int| 0 <= j < self.0@.len() && old(self).wf(flags) && value.wf(flags) implies #[trigger] self.0@[j].1.wf(flags) by {
                        if j != i {
                            assert(self.0@[j] == old(self).0@[j]);
                        }
                    }
                }
                Some(old_value)
            },
            None => {
                let ghost kv = (key, value);
                self.0.push((key, value));
                proof {
                    assert(self.0@ =~= old(self).0@.push(kv));
                    assert forall|flags: CompileFlags, j: int| 0 <= j < self.0@.len() && old(self).wf(flags) && value.wf(flags) implies #[trigger] self.0@[j].1.wf(flags) by {
                        if j < old(self).0@.len() {
                            assert(self.0@[j] == old(self).0@[j]);
                        }
                    }
                }
                None
            },
        }
    }

    /// Lets `name` stand for `value` in the module `module`; false (and no change) when
    /// the module is unknown.
    pub fn insert_func(&mut self, module: &ModuleName, name: FuncName, value: FuncContext) -> (r: bool)
        ensures
            forall|flags: CompileFlags| old(self).wf(flags) && func_ctx_wf(value, flags) ==> final(self).wf(flags),
            r == (exists|i: int| 0 <= i < old(self).0@.len() && old(self).0@[i].0@ == module@),
            final(self).0@.len() == old(self).0@.len(),
            !r ==> final(self).0@ == old(self).0@,
            r ==> exists|i: int| #[trigger] map_first(old(self).0@, module@, i) && final(self).0@[i].0 == old(self).0@[i].0
                && ctx_put(old(self).0@[i].1, final(self).0@[i].1, name@, value)
                && forall|j: int| 0 <= j < old(self).0@.len() && j != i ==> final(self).0@[j] == old(self).0@[j],
    {
        match self.position(module) {
            Some(i) => {
                let (k, ctx) = self.0.remove(i);
                let mut ctx = ctx;
                let ghost c0 = ctx;
                let ghost k0 = k;
                ctx.insert(name, value);
                let ghost c1 = ctx;
                self.0.insert(i, (k, ctx));
                proof {
                    assert(self.0@[i as int] == (k0, c1));
                    assert(c0 == old(self).0@[i as int].1);
                    assert(forall|j: int| 0 <= j < old(self).0@.len() && j != i ==> self.0@[j] == old(self).0@[j]);
                    assert forall|flags: CompileFlags, j: int| 0 <= j < self.0@.len() && old(self).wf(flags) && func_ctx_wf(value, flags) implies #[trigger] self.0@[j].1.wf(flags) by {
                        if j != i {
                            assert(self.0@[j] == old(self).0@[j]);
                        } else {
                            assert(old(self).0@[j].1.wf(flags));
                        }
                    }
                }
                true
            },
            None => false,
        }
    }
}

} // verus!
