use vstd::prelude::*;
use crate::uint::UInt;

verus! {

/// The variables of a running program: names with their values.
pub struct Variables {
    names: Vec<String>,
    values: Vec<UInt>,
}

/// The map given by parallel lists of names and values (a later name wins).
pub open spec fn assoc_map(names: Seq<Seq<char>>, values: Seq<nat>) -> Map<Seq<char>, nat>
    decreases names.len(),
{
    if names.len() == 0 {
        Map::empty()
    } else {
        assoc_map(names.drop_last(), values.take(names.len() - 1)).insert(names.last(), values[names.len() - 1])
    }
}

pub open spec fn name_views(s: Seq<String>) -> Seq<Seq<char>> {
    Seq::new(s.len(), |i: int| s[i]@)
}

pub open spec fn value_views(s: Seq<UInt>) -> Seq<nat> {
    Seq::new(s.len(), |i: int| s[i]@)
}

proof fn lemma_assoc_map(names: Seq<Seq<char>>, values: Seq<nat>, k: Seq<char>)
    requires
        names.len() == values.len(),
        names.no_duplicates(),
    ensures
        assoc_map(names, values).contains_key(k) <==> names.contains(k),
        forall|i: int| 0 <= i < names.len() && names[i] == k ==> assoc_map(names, values)[k] == values[i],
    decreases names.len(),
{
    if names.len() > 0 {
        let n = (names.len() - 1) as int;
        assert(names.drop_last().no_duplicates()) by {
            assert forall|i: int, j: int| 0 <= i < names.drop_last().len() && 0 <= j < names.drop_last().len() && i != j
                implies names.drop_last()[i] != names.drop_last()[j] by {
                assert(names.drop_last()[i] == names[i]);
                assert(names.drop_last()[j] == names[j]);
            }
        }
        lemma_assoc_map(names.drop_last(), values.take(n), k);
        assert forall|i: int| 0 <= i < names.len() && names[i] == k implies assoc_map(names, values)[k] == values[i] by {
            if i < n {
                assert(names.drop_last()[i] == names[i]);
                assert(names[i] != names[n]);
                assert(values.take(n)[i] == values[i]);
            }
        }
        if names.contains(k) {
            let i = choose|i: int| 0 <= i < names.len() && names[i] == k;
            if i < n {
                assert(names.drop_last()[i] == k);
            }
        }
        if names.drop_last().contains(k) {
            let i = choose|i: int| 0 <= i < names.drop_last().len() && names.drop_last()[i] == k;
            assert(names[i] == k);
        }
    }
}

impl View for Variables {
    type V = Map<Seq<char>, nat>;

    closed spec fn view(&self) -> Map<Seq<char>, nat> {
        assoc_map(name_views(self.names@), value_views(self.values@))
    }
}

impl Variables {
    #[verifier::type_invariant]
    spec fn inv(&self) -> bool {
        &&& self.names@.len() == self.values@.len()
        &&& name_views(self.names@).no_duplicates()
    }

    /// No variable.
    pub fn new() -> (r: Variables)
        ensures
            r@ == Map::<Seq<char>, nat>::empty(),
    {
        let r = Variables { names: Vec::new(), values: Vec::new() };
        assert(name_views(r.names@) =~= Seq::<Seq<char>>::empty());
        r
    }

    fn find(&self, name: &String) -> (r: Option<usize>)
        ensures
            match r {
                Some(i) => i < self.names@.len() && self.names@[i as int]@ == name@,
                None => !name_views(self.names@).contains(name@),
            },
    {
        let mut i: usize = 0;
        while i < self.names.len()
            invariant
                i <= self.names@.len(),
                forall|j: int| 0 <= j < i ==> self.names@[j]@ != name@,
            decreases self.names.len() - i,
        {
            if self.names[i] == *name {
                return Some(i);
            }
            i = i + 1;
        }
        proof {
            if name_views(self.names@).contains(name@) {
                let j = choose|j: int| 0 <= j < name_views(self.names@).len() && name_views(self.names@)[j] == name@;
                assert(self.names@[j]@ == name@);
            }
        }
        None
    }

    /// The value of `name`, if it has one.
    pub fn get(&self, name: &String) -> (r: Option<&UInt>)
        ensures
            match r {
                Some(v) => self@.contains_key(name@) && v@ == self@[name@],
                None => !self@.contains_key(name@),
            },
    {
        proof { use_type_invariant(self); }
        proof { lemma_assoc_map(name_views(self.names@), value_views(self.values@), name@); }
        match self.find(name) {
            Some(i) => {
                assert(name_views(self.names@)[i as int] == name@);
                assert(value_views(self.values@)[i as int] == self.values@[i as int]@);
                Some(&self.values[i])
            },
            None => None,
        }
    }

    /// Gives `name` the value `value`.
    pub fn insert(&mut self, name: String, value: UInt)
        ensures
            final(self)@ == old(self)@.insert(name@, value@),
    {
        proof { use_type_invariant(&*self); }
        let mut tmp = Variables::new();
        std::mem::swap(self, &mut tmp);
        proof { use_type_invariant(&tmp); }
        let ghost old_map = tmp@;
        let idx = tmp.find(&name);
        let Variables { names, values } = tmp;
        let mut names = names;
        let mut values = values;
        let ghost ns = name_views(names@);
        let ghost vs = value_views(values@);
        let ghost nv = value@;
        match idx {
            Some(i) => {
                values.set(i, value);
                proof {
                    let vs2 = value_views(values@);
                    assert(vs2 =~= vs.update(i as int, nv));
                    assert(name_views(names@) == ns);
                    assert(old_map == assoc_map(ns, vs));
                    let m2 = assoc_map(ns, vs2);
                    let m1 = old_map.insert(name@, nv);
                    assert forall|k: Seq<char>| #[trigger] m2.contains_key(k) == m1.contains_key(k) by {
                        lemma_assoc_map(ns, vs2, k);
                        lemma_assoc_map(ns, vs, k);
                        assert(ns[i as int] == name@);
                    }
                    assert forall|k: Seq<char>| #[trigger] m2.contains_key(k) implies m2[k] == m1[k] by {
                        lemma_assoc_map(ns, vs2, k);
                        lemma_assoc_map(ns, vs, k);
                        assert(ns[i as int] == name@);
                        let j = choose|j: int| 0 <= j < ns.len() && ns[j] == k;
                        if k == name@ {
                            assert(j == i);
                        } else {
                            assert(vs2[j] == vs[j]);
                        }
                    }
                    assert(m2 =~= m1);
                }
                *self = Variables { names, values };
            },
            None => {
                let ghost nm = name@;
                names.push(name);
                values.push(value);
                proof {
                    let ns2 = name_views(names@);
                    let vs2 = value_views(values@);
                    assert(ns2 =~= ns.push(nm));
                    assert(vs2 =~= vs.push(nv));
                    assert(ns2.drop_last() =~= ns);
                    assert(vs2.take(ns2.len() - 1) =~= vs);
                    assert(ns2.no_duplicates()) by {
                        assert forall|a: int, b: int| 0 <= a < ns2.len() && 0 <= b < ns2.len() && a != b
                            implies ns2[a] != ns2[b] by {
                            if a == ns.len() as int {
                                assert(ns[b] == ns2[b]);
                            } else if b == ns.len() as int {
                                assert(ns[a] == ns2[a]);
                            } else {
                                assert(ns[a] == ns2[a]);
                                assert(ns[b] == ns2[b]);
                            }
                        }
                    }
                }
                *self = Variables { names, values };
            },
        }
    }

    /// The number of variables.
    pub fn len(&self) -> (r: usize)
        ensures
            r == self@.len(),
    {
        proof { use_type_invariant(self); }
        proof { lemma_assoc_map_len(name_views(self.names@), value_views(self.values@)); }
        self.names.len()
    }

    /// The names and values of all variables.
    pub fn entries(&self) -> (r: Vec<(String, UInt)>)
        ensures
            r@.len() == self@.len(),
            forall|i: int| 0 <= i < r@.len() ==> self@.contains_key(#[trigger] r@[i].0@) && self@[r@[i].0@] == r@[i].1@,
            forall|k: Seq<char>| self@.contains_key(k) ==> exists|i: int| 0 <= i < r@.len() && #[trigger] r@[i].0@ == k,
    {
        proof { use_type_invariant(self); }
        proof { lemma_assoc_map_len(name_views(self.names@), value_views(self.values@)); }
        let mut r: Vec<(String, UInt)> = Vec::new();
        let mut i: usize = 0;
        while i < self.names.len()
            invariant
                i <= self.names@.len(),
                self.names@.len() == self.values@.len(),
                name_views(self.names@).no_duplicates(),
                r@.len() == i,
                forall|j: int| 0 <= j < i ==> #[trigger] r@[j].0@ == self.names@[j]@ && r@[j].1@ == self.values@[j]@,
            decreases self.names.len() - i,
        {
            r.push((self.names[i].clone(), self.values[i].clone()));
            i = i + 1;
        }
        proof {
            assert forall|j: int| 0 <= j < r@.len() implies self@.contains_key(#[trigger] r@[j].0@) && self@[r@[j].0@] == r@[j].1@ by {
                lemma_assoc_map(name_views(self.names@), value_views(self.values@), r@[j].0@);
                assert(name_views(self.names@)[j] == r@[j].0@);
                assert(value_views(self.values@)[j] == r@[j].1@);
            }
            assert forall|k: Seq<char>| self@.contains_key(k) implies exists|j: int| 0 <= j < r@.len() && #[trigger] r@[j].0@ == k by {
                lemma_assoc_map(name_views(self.names@), value_views(self.values@), k);
                let j = choose|j: int| 0 <= j < name_views(self.names@).len() && name_views(self.names@)[j] == k;
                assert(r@[j].0@ == k);
            }
        }
        r
    }
}

proof fn lemma_assoc_map_len(names: Seq<Seq<char>>, values: Seq<nat>)
    requires
        names.len() == values.len(),
        names.no_duplicates(),
    ensures
        assoc_map(names, values).len() == names.len(),
        assoc_map(names, values).dom().finite(),
    decreases names.len(),
{
    if names.len() > 0 {
        let n = (names.len() - 1) as int;
        assert(names.drop_last().no_duplicates()) by {
            assert forall|i: int, j: int| 0 <= i < names.drop_last().len() && 0 <= j < names.drop_last().len() && i != j
                implies names.drop_last()[i] != names.drop_last()[j] by {
                assert(names.drop_last()[i] == names[i]);
                assert(names.drop_last()[j] == names[j]);
            }
        }
        lemma_assoc_map_len(names.drop_last(), values.take(n));
        lemma_assoc_map(names.drop_last(), values.take(n), names.last());
        assert(!names.drop_last().contains(names.last())) by {
            if names.drop_last().contains(names.last()) {
                let i = choose|i: int| 0 <= i < names.drop_last().len() && names.drop_last()[i] == names.last();
                assert(names[i] == names[n]);
            }
        }
    }
}

impl Clone for Variables {
    fn clone(&self) -> (r: Self)
        ensures
            r@ == self@,
    {
        proof { use_type_invariant(self); }
        let mut names: Vec<String> = Vec::new();
        let mut values: Vec<UInt> = Vec::new();
        let mut i: usize = 0;
        while i < self.names.len()
            invariant
                i <= self.names@.len(),
                self.names@.len() == self.values@.len(),
                names@.len() == i,
                values@.len() == i,
                forall|j: int| 0 <= j < i ==> #[trigger] names@[j]@ == self.names@[j]@,
                forall|j: int| 0 <= j < i ==> #[trigger] values@[j]@ == self.values@[j]@,
            decreases self.names.len() - i,
        {
            names.push(self.names[i].clone());
            values.push(self.values[i].clone());
            i = i + 1;
        }
        assert(name_views(names@) =~= name_views(self.names@));
        assert(value_views(values@) =~= value_views(self.values@));
        Variables { names, values }
    }
}

} // verus!
