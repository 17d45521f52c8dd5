use vstd::prelude::*;

verus! {

broadcast use vstd::std_specs::vec::axiom_vec_index_decreases;

/// An entry of a directory: a file with its contents, or a directory.
#[derive(Debug)]
pub enum Path {
    File(String),
    Directory(Box<Directory>),
}

/// A directory of named entries (a later entry of the same name replaces an earlier one).
#[derive(Debug)]
pub struct Directory(pub Vec<(String, Path)>);

/// The files of a directory tree, each with its path from the root.
pub struct DirectoryIterator {
    dir: Vec<(Vec<String>, String)>,
    cur: usize,
}

/// The files below a directory: each path (from the directory) with the file contents.
pub open spec fn flat_files(d: Directory) -> Seq<(Seq<Seq<char>>, Seq<char>)>
    decreases d, 0nat,
{
    flat_entries(d.0@)
}

pub open spec fn flat_entries(es: Seq<(String, Path)>) -> Seq<(Seq<Seq<char>>, Seq<char>)>
    decreases es, 0nat,
{
    if es.len() == 0 {
        seq![]
    } else {
        flat_entries(es.drop_last()) + flat_path(es.last().0@, es.last().1)
    }
}

pub open spec fn flat_path(key: Seq<char>, p: Path) -> Seq<(Seq<Seq<char>>, Seq<char>)>
    decreases p, 0nat,
{
    match p {
        Path::File(c) => seq![(seq![key], c@)],
        Path::Directory(sub) => {
            let inner = flat_files(*sub);
            Seq::new(inner.len(), |i: int| (seq![key] + inner[i].0, inner[i].1))
        },
    }
}

pub open spec fn file_views(v: Seq<(Vec<String>, String)>) -> Seq<(Seq<Seq<char>>, Seq<char>)> {
    Seq::new(v.len(), |i: int| (crate::names::str_views(v[i].0@), v[i].1@))
}

fn flatten_dir(d: &Directory) -> (r: Vec<(Vec<String>, String)>)
    ensures
        file_views(r@) == flat_files(*d),
    decreases d, 1nat,
{
    flatten_entries(&d.0)
}

fn flatten_entries(es: &Vec<(String, Path)>) -> (r: Vec<(Vec<String>, String)>)
    ensures
        file_views(r@) == flat_entries(es@),
    decreases es, 0nat,
{
    let mut r: Vec<(Vec<String>, String)> = Vec::new();
    let mut i: usize = 0;
    while i < es.len()
        invariant
            i <= es@.len(),
            file_views(r@) == flat_entries(es@.take(i as int)),
        decreases es.len() - i,
    {
        let mut part = flatten_path(&es[i].0, &es[i].1);
        let ghost a = file_views(r@);
        let ghost b = file_views(part@);
        r.append(&mut part);
        proof {
            assert(es@.take(i + 1).drop_last() =~= es@.take(i as int));
            assert(file_views(r@) =~= a + b);
        }
        i = i + 1;
    }
    assert(es@.take(i as int) =~= es@);
    r
}

fn flatten_path(key: &String, p: &Path) -> (r: Vec<(Vec<String>, String)>)
    ensures
        file_views(r@) == flat_path(key@, *p),
    decreases p, 0nat,
{
    match p {
        Path::File(c) => {
            let mut k = Vec::new();
            k.push(key.clone());
            let mut r = Vec::new();
            r.push((k, c.clone()));
            assert(crate::names::str_views(r@[0].0@) =~= seq![key@]);
            assert(file_views(r@) =~= seq![(seq![key@], c@)]);
            r
        },
        Path::Directory(sub) => {
            let inner = flatten_dir(sub);
            let mut r: Vec<(Vec<String>, String)> = Vec::new();
            let mut i: usize = 0;
            while i < inner.len()
                invariant
                    i <= inner@.len(),
                    r@.len() == i,
                    forall|j: int| 0 <= j < i ==> #[trigger] file_views(r@)[j] == (seq![key@] + file_views(inner@)[j].0, file_views(inner@)[j].1),
                decreases inner.len() - i,
            {
                let mut k = Vec::new();
                k.push(key.clone());
                let mut j: usize = 0;
                while j < inner[i].0.len()
                    invariant
                        i < inner@.len(),
                        r@.len() == i,
                        forall|jj: int| 0 <= jj < i ==> #[trigger] file_views(r@)[jj] == (seq![key@] + file_views(inner@)[jj].0, file_views(inner@)[jj].1),
                        j <= inner@[i as int].0@.len(),
                        k@.len() == j + 1,
                        k@[0]@ == key@,
                        forall|m: int| 0 < m <= j ==> #[trigger] k@[m]@ == inner@[i as int].0@[m - 1]@,
                    decreases inner@[i as int].0@.len() - j,
                {
                    k.push(inner[i].0[j].clone());
                    j = j + 1;
                }
                assert(crate::names::str_views(k@) =~= seq![key@] + crate::names::str_views(inner@[i as int].0@));
                let ghost before = r@;
                r.push((k, inner[i].1.clone()));
                assert forall|j: int| 0 <= j < i implies #[trigger] file_views(r@)[j] == (seq![key@] + file_views(inner@)[j].0, file_views(inner@)[j].1) by {
                    assert(r@[j] == before[j]);
                    assert(file_views(r@)[j] == file_views(before)[j]);
                }
                assert(file_views(r@)[i as int] == (seq![key@] + file_views(inner@)[i as int].0, file_views(inner@)[i as int].1));
                i = i + 1;
            }
            assert(file_views(r@) =~= flat_path(key@, *p));
            r
        },
    }
}

/// A copy of a path.
pub fn copy_path(p: &Path) -> (r: Path)
    ensures
        p is File <==> r is File,
        p matches Path::File(c) ==> r->File_0@ == c@,
        p matches Path::Directory(d) ==> r->Directory_0.0@.len() == d.0@.len(),
    decreases p,
{
    match p {
        Path::File(s) => Path::File(s.clone()),
        Path::Directory(d) => Path::Directory(Box::new(copy_entries(d))),
    }
}

fn copy_entries(d: &Directory) -> (r: Directory)
    ensures
        r.0@.len() == d.0@.len(),
    decreases d,
{
    let mut v: Vec<(String, Path)> = Vec::new();
    let mut i: usize = 0;
    while i < d.0.len()
        invariant
            i <= d.0@.len(),
            v@.len() == i,
        decreases d.0.len() - i,
    {
        assert(decreases_to!(d => d.0@[i as int].1));
        v.push((d.0[i].0.clone(), copy_path(&d.0[i].1)));
        i = i + 1;
    }
    Directory(v)
}

// ---------------------------------------------------------------------------
// Listing a directory

/// How deep directories nest below `d`.
pub open spec fn dir_depth(d: Directory) -> nat
    decreases d, 0nat,
{
    entries_depth(d.0@)
}

pub open spec fn entries_depth(es: Seq<(String, Path)>) -> nat
    decreases es, 0nat,
{
    if es.len() == 0 {
        0
    } else {
        let a = entries_depth(es.drop_last());
        let b = path_depth(es.last().1);
        if a >= b { a } else { b }
    }
}

pub open spec fn path_depth(p: Path) -> nat
    decreases p, 0nat,
{
    match p {
        Path::File(_) => 0,
        Path::Directory(sub) => 1 + dir_depth(*sub),
    }
}

/// The listing of a directory: each entry on a line of its own, indented by `indent`
/// spaces per level from `level` on, as `name: File`, or as `name: Directory` followed by
/// the listing of its entries one level deeper.
pub open spec fn spec_format(d: Directory, indent: nat, level: nat) -> Seq<char>
    decreases d, 0nat,
{
    format_entries(d.0@, indent, level)
}

pub open spec fn format_entries(es: Seq<(String, Path)>, indent: nat, level: nat) -> Seq<char>
    decreases es, 0nat,
{
    if es.len() == 0 {
        seq![]
    } else {
        format_entries(es.drop_last(), indent, level) + format_entry(es.last().0@, es.last().1, indent, level)
    }
}

pub open spec fn format_entry(key: Seq<char>, p: Path, indent: nat, level: nat) -> Seq<char>
    decreases p, 0nat,
{
    match p {
        Path::File(_) => crate::expr::spaces(indent * level) + key + ": File\n"@,
        Path::Directory(sub) => crate::expr::spaces(indent * level) + key + ": Directory\n"@
            + spec_format(*sub, indent, level + 1),
    }
}

/// Every entry nests no deeper than the list.
proof fn lemma_entries_depth(es: Seq<(String, Path)>, i: int)
    requires
        0 <= i < es.len(),
    ensures
        path_depth(es[i].1) <= entries_depth(es),
        entries_depth(es.take(i)) <= entries_depth(es),
    decreases es.len(),
{
    if i < es.len() - 1 {
        lemma_entries_depth(es.drop_last(), i);
        assert(es.drop_last()[i] == es[i]);
        assert(es.drop_last().take(i) =~= es.take(i));
    } else {
        assert(es.take(i) =~= es.drop_last());
    }
}

/// The indentation of every level of `d`, from `level` on, fits in a `usize`.
pub open spec fn format_fits(d: Directory, indent: nat, level: nat) -> bool {
    (level + dir_depth(d)) * indent <= usize::MAX && level + dir_depth(d) <= usize::MAX
}

proof fn lemma_fits_deeper(indent: nat, a: nat, b: nat)
    requires
        a <= b,
        b * indent <= usize::MAX,
    ensures
        a * indent <= usize::MAX,
{
    assert(a * indent <= b * indent) by (nonlinear_arith)
        requires
            a <= b;
}

fn format_entries_exec(es: &Vec<(String, Path)>, indent: usize, level: usize) -> (r: String)
    requires
        (level + entries_depth(es@)) * indent <= usize::MAX,
        level + entries_depth(es@) <= usize::MAX,
    ensures
        r@ == format_entries(es@, indent as nat, level as nat),
    decreases es, 0nat,
{
    let mut out = String::new();
    let mut i: usize = 0;
    while i < es.len()
        invariant
            i <= es@.len(),
            (level + entries_depth(es@)) * indent <= usize::MAX,
            level + entries_depth(es@) <= usize::MAX,
            out@ == format_entries(es@.take(i as int), indent as nat, level as nat),
        decreases es.len() - i,
    {
        proof {
            lemma_entries_depth(es@, i as int);
            lemma_fits_deeper(indent as nat, (level + path_depth(es@[i as int].1)) as nat, (level + entries_depth(es@)) as nat);
        }
        let part = format_entry_exec(&es[i].0, &es[i].1, indent, level);
        let ghost before = out@;
        out.append(part.as_str());
        proof {
            assert(es@.take(i + 1).drop_last() =~= es@.take(i as int));
            assert(es@.take(i + 1).last() == es@[i as int]);
        }
        i = i + 1;
    }
    assert(es@.take(i as int) =~= es@);
    out
}

fn format_entry_exec(key: &String, p: &Path, indent: usize, level: usize) -> (r: String)
    requires
        (level + path_depth(*p)) * indent <= usize::MAX,
        level + path_depth(*p) <= usize::MAX,
    ensures
        r@ == format_entry(key@, *p, indent as nat, level as nat),
    decreases p, 0nat,
{
    proof {
        lemma_fits_deeper(indent as nat, level as nat, (level + path_depth(*p)) as nat);
    }
    let mut out = String::new();
    crate::expr::push_spaces(&mut out, indent * level);
    out.append(key.as_str());
    match p {
        Path::File(_) => {
            out.append(": File\n");
            proof {
                reveal_strlit(": File\n");
            }
        },
        Path::Directory(sub) => {
            out.append(": Directory\n");
            proof {
                reveal_strlit(": Directory\n");
                assert(level + 1 + dir_depth(**sub) == level + path_depth(*p));
            }
            let inner = format_entries_exec(&sub.0, indent, level + 1);
            out.append(inner.as_str());
        },
    }
    out
}

impl Directory {
    /// The listing of the directory (see `spec_format`); `level` is the nesting level to
    /// start from, 0 when absent.
    pub fn format(&self, indent: usize, level: Option<usize>) -> (r: String)
        requires
            format_fits(*self, indent as nat, match level { Some(l) => l as nat, None => 0 }),
        ensures
            r@ == spec_format(*self, indent as nat, match level { Some(l) => l as nat, None => 0 }),
    {
        let l = match level {
            Some(l) => l,
            None => 0,
        };
        format_entries_exec(&self.0, indent, l)
    }

    /// A copy of the directory.
    pub fn copy(&self) -> (r: Directory)
        ensures
            r.0@.len() == self.0@.len(),
    {
        copy_entries(self)
    }

    /// An empty directory.
    pub fn new() -> (r: Directory)
        ensures
            r.0@.len() == 0,
    {
        Directory(Vec::new())
    }

    fn position(&self, key: &String) -> (r: Option<usize>)
        ensures
            match r {
                Some(i) => i < self.0@.len() && self.0@[i as int].0@ == key@,
                None => forall|i: int| 0 <= i < self.0@.len() ==> self.0@[i].0@ != key@,
            },
    {
        let mut i: usize = 0;
        while i < self.0.len()
            invariant
                i <= self.0@.len(),
                forall|j: int| 0 <= j < i ==> self.0@[j].0@ != key@,
            decreases self.0.len() - i,
        {
            if self.0[i].0 == *key {
                return Some(i);
            }
            i = i + 1;
        }
        None
    }

    /// Adds the entry `key`, replacing (and returning) the entry of that name if there is one.
    pub fn insert(&mut self, key: String, value: Path) -> (r: Option<Path>)
        ensures
            match r {
                Some(_) => exists|i: int| 0 <= i < old(self).0@.len() && old(self).0@[i].0@ == key@
                    && final(self).0@ == old(self).0@.update(i, (key, value)),
                None => (forall|i: int| 0 <= i < old(self).0@.len() ==> old(self).0@[i].0@ != key@)
                    && final(self).0@ == old(self).0@.push((key, value)),
            },
    {
        match self.position(&key) {
            Some(i) => {
                let (_, old_value) = self.0.remove(i);
                self.0.insert(i, (key, value));
                assert(self.0@ =~= old(self).0@.update(i as int, (key, value)));
                Some(old_value)
            },
            None => {
                self.0.push((key, value));
                None
            },
        }
    }

    /// Removes (and returns) the entry `key`.
    pub fn remove(&mut self, key: &String) -> (r: Option<Path>)
        ensures
            match r {
                Some(_) => exists|i: int| 0 <= i < old(self).0@.len() && old(self).0@[i].0@ == key@
                    && final(self).0@ == old(self).0@.remove(i),
                None => (forall|i: int| 0 <= i < old(self).0@.len() ==> old(self).0@[i].0@ != key@)
                    && final(self).0@ == old(self).0@,
            },
    {
        match self.position(key) {
            Some(i) => {
                let (_, v) = self.0.remove(i);
                Some(v)
            },
            None => None,
        }
    }

    /// The entry `key`.
    pub fn get(&self, key: &String) -> (r: Option<&Path>)
        ensures
            match r {
                Some(p) => exists|i: int| 0 <= i < self.0@.len() && self.0@[i].0@ == key@ && *p == self.0@[i].1,
                None => forall|i: int| 0 <= i < self.0@.len() ==> self.0@[i].0@ != key@,
            },
    {
        match self.position(key) {
            Some(i) => Some(&self.0[i].1),
            None => None,
        }
    }

    /// The files of the tree, each with its path.
    pub fn walk(&self) -> (r: DirectoryIterator)
        ensures
            r.items() == flat_files(*self),
            r.position() == 0,
    {
        DirectoryIterator { dir: flatten_dir(self), cur: 0 }
    }
}

impl DirectoryIterator {
    /// All files of the walk.
    pub closed spec fn items(&self) -> Seq<(Seq<Seq<char>>, Seq<char>)> {
        file_views(self.dir@)
    }

    /// How many files the walk has handed out.
    pub closed spec fn position(&self) -> nat {
        self.cur as nat
    }

    /// The next file of the walk, with its path.
    pub fn next(&mut self) -> (r: Option<(Vec<String>, String)>)
        ensures
            final(self).items() == old(self).items(),
            match r {
                Some(x) => old(self).position() < old(self).items().len()
                    && (crate::names::str_views(x.0@), x.1@) == old(self).items()[old(self).position() as int]
                    && final(self).position() == old(self).position() + 1,
                None => old(self).position() >= old(self).items().len() && final(self).position() == old(self).position(),
            },
    {
        if self.cur >= self.dir.len() {
            None
        } else {
            let item = (crate::names::clone_strings(&self.dir[self.cur].0), self.dir[self.cur].1.clone());
            self.cur = self.cur + 1;
            Some(item)
        }
    }
}

} // verus!
