use vstd::prelude::*;

verus! {

/// The path of a module, such as `fs::main`.
#[derive(Debug)]
pub struct ModuleName(pub Vec<String>);

/// The name of a function.
#[derive(Debug)]
pub struct FuncName(pub String);

/// The name a function is imported under.
#[derive(Debug)]
pub struct FuncAlias(pub String);

/// A function together with the module it belongs to.
#[derive(Debug)]
pub struct FuncQualName(pub ModuleName, pub FuncName);

/// The same types under their long names.
pub type FunctionName = FuncName;
pub type FunctionAlias = FuncAlias;
pub type FunctionQualName = FuncQualName;

pub open spec fn str_views(s: Seq<String>) -> Seq<Seq<char>> {
    Seq::new(s.len(), |i: int| s[i]@)
}

impl View for ModuleName {
    type V = Seq<Seq<char>>;

    open spec fn view(&self) -> Seq<Seq<char>> {
        str_views(self.0@)
    }
}

impl View for FuncName {
    type V = Seq<char>;

    open spec fn view(&self) -> Seq<char> {
        self.0@
    }
}

impl View for FuncAlias {
    type V = Seq<char>;

    open spec fn view(&self) -> Seq<char> {
        self.0@
    }
}

impl View for FuncQualName {
    type V = (Seq<Seq<char>>, Seq<char>);

    open spec fn view(&self) -> (Seq<Seq<char>>, Seq<char>) {
        (self.0@, self.1@)
    }
}

/// A copy of a list of strings.
pub fn clone_strings(v: &Vec<String>) -> (r: Vec<String>)
    ensures
        str_views(r@) == str_views(v@),
{
    let mut r: Vec<String> = Vec::new();
    let mut i: usize = 0;
    while i < v.len()
        invariant
            i <= v@.len(),
            r@.len() == i,
            forall|j: int| 0 <= j < i ==> #[trigger] r@[j]@ == v@[j]@,
        decreases v.len() - i,
    {
        r.push(v[i].clone());
        i = i + 1;
    }
    assert(str_views(r@) =~= str_views(v@));
    r
}

/// The strings joined by `sep`.
pub open spec fn join_spec(s: Seq<Seq<char>>, sep: Seq<char>) -> Seq<char>
    decreases s.len(),
{
    if s.len() == 0 {
        seq![]
    } else if s.len() == 1 {
        s[0]
    } else {
        join_spec(s.drop_last(), sep) + sep + s.last()
    }
}

/// The strings joined by `sep`.
pub fn join(v: &Vec<String>, sep: &str) -> (r: String)
    ensures
        r@ == join_spec(str_views(v@), sep@),
{
    let mut out = String::new();
    let mut i: usize = 0;
    while i < v.len()
        invariant
            i <= v@.len(),
            out@ == join_spec(str_views(v@).take(i as int), sep@),
        decreases v.len() - i,
    {
        proof {
            assert(str_views(v@).take(i + 1).drop_last() =~= str_views(v@).take(i as int));
        }
        if i > 0 {
            out.append(sep);
        }
        out.append(v[i].as_str());
        i = i + 1;
    }
    assert(str_views(v@).take(i as int) =~= str_views(v@));
    out
}

impl ModuleName {
    /// The main module, `fs::main`.
    pub fn main() -> (r: ModuleName)
        ensures
            r@ == seq!["fs"@, "main"@],
    {
        let mut v = Vec::new();
        v.push(String::from_str("fs"));
        v.push(String::from_str("main"));
        let r = ModuleName(v);
        assert(r@ =~= seq!["fs"@, "main"@]);
        r
    }

    /// The module of the path `v`.
    pub fn from(v: Vec<String>) -> (r: ModuleName)
        ensures
            r@ == str_views(v@),
    {
        ModuleName(v)
    }

    /// The path written with `::` between its parts.
    pub fn to_string(&self) -> (r: String)
        ensures
            r@ == join_spec(self@, "::"@),
    {
        join(&self.0, "::")
    }

    /// Whether both paths are equal.
    pub fn equals(&self, other: &ModuleName) -> (r: bool)
        ensures
            r == (self@ == other@),
    {
        if self.0.len() != other.0.len() {
            assert(self@.len() != other@.len());
            return false;
        }
        let mut i: usize = 0;
        while i < self.0.len()
            invariant
                i <= self.0@.len(),
                self.0@.len() == other.0@.len(),
                forall|j: int| 0 <= j < i ==> self.0@[j]@ == other.0@[j]@,
            decreases self.0.len() - i,
        {
            if !(self.0[i] == other.0[i]) {
                assert(self@[i as int] != other@[i as int]);
                return false;
            }
            i = i + 1;
        }
        assert(self@ =~= other@);
        true
    }

    /// A copy of the path.
    pub fn copy(&self) -> (r: ModuleName)
        ensures
            r@ == self@,
    {
        ModuleName(clone_strings(&self.0))
    }
}

impl FuncName {
    /// The function named `s`.
    pub fn from(s: String) -> (r: FuncName)
        ensures
            r@ == s@,
    {
        FuncName(s)
    }

    /// The name as a string.
    pub fn to_string(&self) -> (r: String)
        ensures
            r@ == self@,
    {
        self.0.clone()
    }

    /// A copy of the name.
    pub fn copy(&self) -> (r: FuncName)
        ensures
            r@ == self@,
    {
        FuncName(self.0.clone())
    }
}

/// The first (at most) three characters of a name.
pub open spec fn smol(s: Seq<char>) -> Seq<char> {
    if s.len() < 3 { s } else { s.take(3) }
}

impl FuncQualName {
    /// The qualified name of `func` in `module`.
    pub fn from(module: ModuleName, func: FuncName) -> (r: FuncQualName)
        ensures
            r@ == (module@, func@),
    {
        FuncQualName(module, func)
    }

    /// The module.
    pub fn module(&self) -> (r: &ModuleName)
        ensures
            r@ == self@.0,
    {
        &self.0
    }

    /// The module, to change it.
    pub fn module_mut(&mut self) -> (r: &mut ModuleName)
        ensures
            r@ == old(self)@.0,
            final(self)@ == (final(r)@, old(self)@.1),
    {
        &mut self.0
    }

    /// The function.
    pub fn func(&self) -> (r: &FuncName)
        ensures
            r@ == self@.1,
    {
        &self.1
    }

    /// The function, to change it.
    pub fn func_mut(&mut self) -> (r: &mut FuncName)
        ensures
            r@ == old(self)@.1,
            final(self)@ == (old(self)@.0, final(r)@),
    {
        &mut self.1
    }

    /// The first three characters of the function's name (the whole name when it is
    /// shorter).
    pub fn func_smol(&self) -> (r: String)
        ensures
            r@ == smol(self@.1),
    {
        let n = (self.1).0.unicode_len();
        if n < 3 {
            (self.1).0.clone()
        } else {
            String::from_str((self.1).0.as_str().substring_char(0, 3))
        }
    }

    /// The module and function, written `module::func`.
    pub fn to_string(&self) -> (r: String)
        ensures
            r@ == join_spec(self@.0, "::"@) + "::"@ + self@.1,
    {
        let mut s = self.0.to_string();
        s.append("::");
        s.append((self.1).0.as_str());
        s
    }

    /// Whether both names are equal.
    pub fn equals(&self, other: &FuncQualName) -> (r: bool)
        ensures
            r == (self@ == other@),
    {
        self.0.equals(&other.0) && (self.1).0 == (other.1).0
    }

    /// A copy of the name.
    pub fn copy(&self) -> (r: FuncQualName)
        ensures
            r@ == self@,
    {
        FuncQualName(self.0.copy(), self.1.copy())
    }
}

} // verus!
