use vstd::prelude::*;

verus! {

/// The index of the entry named `name` in `s`, if there is one.
pub open spec fn position_of(s: Seq<(Seq<char>, nat)>, name: Seq<char>) -> Option<int> {
    if exists|i: int| 0 <= i < s.len() && (#[trigger] s[i]).0 == name {
        Some(choose|i: int| 0 <= i < s.len() && (#[trigger] s[i]).0 == name)
    } else {
        None
    }
}

/// The slot registered under `name`, if any.
pub open spec fn slot_of(s: Seq<(Seq<char>, nat)>, name: Seq<char>) -> Option<nat> {
    match position_of(s, name) {
        Some(i) => Some(s[i].1),
        None => None,
    }
}

pub open spec fn names_unique(s: Seq<(Seq<char>, nat)>) -> bool {
    forall|i: int, j: int| 0 <= i < j < s.len() ==> (#[trigger] s[i]).0 != (#[trigger] s[j]).0
}

/// `s` after registering `name` at `slot`: a name already present keeps its
/// place and takes the new slot; a new name goes last.
pub open spec fn registered(s: Seq<(Seq<char>, nat)>, name: Seq<char>, slot: nat) -> Seq<(Seq<char>, nat)> {
    match position_of(s, name) {
        Some(i) => s.update(i, (name, slot)),
        None => s.push((name, slot)),
    }
}

/// The registry that a manifest of `names` gives when entry `i` loaded
/// exactly where `loaded[i]`: each loaded entry under its own index.
pub open spec fn load_spec(names: Seq<Seq<char>>, loaded: Seq<bool>) -> Seq<(Seq<char>, nat)>
    decreases names.len(),
{
    if names.len() == 0 || loaded.len() != names.len() {
        Seq::empty()
    } else {
        let before = load_spec(names.drop_last(), loaded.drop_last());
        if loaded.last() {
            registered(before, names.last(), (names.len() - 1) as nat)
        } else {
            before
        }
    }
}

/// The loaded components, each name with the slot of its execution handle,
/// in registration order.
pub struct Registry {
    entries: Vec<(String, usize)>,
}

impl View for Registry {
    type V = Seq<(Seq<char>, nat)>;

    closed spec fn view(&self) -> Seq<(Seq<char>, nat)> {
        self.entries@.map_values(|e: (String, usize)| (e.0@, e.1 as nat))
    }
}

impl Registry {
    /// No name is registered twice.
    pub open spec fn wf(&self) -> bool {
        names_unique(self@)
    }

    /// An empty registry.
    pub fn new() -> (r: Registry)
        ensures
            r.wf(),
            r@ == Seq::<(Seq<char>, nat)>::empty(),
    {
        let r = Registry { entries: Vec::new() };
        assert(r@ =~= Seq::<(Seq<char>, nat)>::empty());
        r
    }

    /// Number of registered components.
    pub fn len(&self) -> (n: usize)
        ensures
            n == self@.len(),
    {
        self.entries.len()
    }

    /// The name and slot at position `i` of the registration order.
    pub fn entry(&self, i: usize) -> (r: (&String, usize))
        requires
            i < self@.len(),
        ensures
            r.0@ == self@[i as int].0,
            r.1 == self@[i as int].1,
    {
        let e = &self.entries[i];
        (&e.0, e.1)
    }

    /// The position of `name` in the registration order.
    fn find(&self, name: &String) -> (r: Option<usize>)
        requires
            self.wf(),
        ensures
            match r {
                Some(i) => {
                    &&& position_of(self@, name@) == Some(i as int)
                    &&& i < self@.len()
                    &&& self@[i as int].0 == name@
                },
                None => position_of(self@, name@) is None,
            },
    {
        let mut i: usize = 0;
        while i < self.entries.len()
            invariant
                0 <= i <= self@.len(),
                self.wf(),
                self@.len() == self.entries@.len(),
                forall|j: int| 0 <= j < i ==> (#[trigger] self@[j]).0 != name@,
            decreases self@.len() - i,
        {
            assert(self@[i as int].0 == self.entries@[i as int].0@);
            if self.entries[i].0 == *name {
                assert(self@[i as int].0 == name@);
                let ghost j = choose|j: int| 0 <= j < self@.len() && (#[trigger] self@[j]).0 == name@;
                assert(j == i as int);
                return Some(i);
            }
            i = i + 1;
        }
        None
    }

    /// The slot of the component registered as `name`.
    pub fn lookup(&self, name: &String) -> (r: Option<usize>)
        requires
            self.wf(),
        ensures
            match r {
                Some(k) => slot_of(self@, name@) == Some(k as nat),
                None => slot_of(self@, name@) is None,
            },
    {
        match self.find(name) {
            Some(i) => {
                assert(self@[i as int].1 == self.entries@[i as int].1);
                Some(self.entries[i].1)
            },
            None => None,
        }
    }

    /// Registers `name` at `slot`; a name already present takes the new slot.
    pub fn register(&mut self, name: String, slot: usize)
        requires
            old(self).wf(),
        ensures
            final(self).wf(),
            final(self)@ == registered(old(self)@, name@, slot as nat),
    {
        let ghost n = name@;
        match self.find(&name) {
            Some(i) => {
                self.entries.set(i, (name, slot));
                assert(self@ =~= old(self)@.update(i as int, (n, slot as nat)));
                assert(old(self)@[i as int].0 == n);
                assert forall|a: int, b: int| 0 <= a < b < self@.len() implies (#[trigger] self@[a]).0
                    != (#[trigger] self@[b]).0 by {
                    assert(self@[a].0 == old(self)@[a].0);
                    assert(self@[b].0 == old(self)@[b].0);
                }
            },
            None => {
                self.entries.push((name, slot));
                assert(self@ =~= old(self)@.push((n, slot as nat)));
                assert forall|j: int| 0 <= j < old(self)@.len() implies (#[trigger] old(self)@[j]).0 != n by {
                }
            },
        }
    }

    /// Builds the registry of a manifest whose entry `i` is `names[i]` and
    /// loaded exactly where `loaded[i]`; entries that failed to load are left
    /// out, and each loaded one is registered at slot `i`.
    pub fn load(names: &Vec<String>, loaded: &Vec<bool>) -> (r: Registry)
        requires
            names@.len() == loaded@.len(),
        ensures
            r.wf(),
            r@ == load_spec(names@.map_values(|s: String| s@), loaded@),
    {
        let ghost ns = names@.map_values(|s: String| s@);
        let mut r = Registry::new();
        let mut i: usize = 0;
        while i < names.len()
            invariant
                0 <= i <= names@.len(),
                names@.len() == loaded@.len(),
                ns == names@.map_values(|s: String| s@),
                r.wf(),
                r@ == load_spec(ns.take(i as int), loaded@.take(i as int)),
            decreases names@.len() - i,
        {
            assert(ns.take(i + 1).drop_last() =~= ns.take(i as int));
            assert(loaded@.take(i + 1).drop_last() =~= loaded@.take(i as int));
            assert(ns.take(i + 1).last() == names@[i as int]@);
            if loaded[i] {
                r.register(names[i].clone(), i);
            }
            i = i + 1;
        }
        assert(ns.take(names@.len() as int) =~= ns);
        assert(loaded@.take(names@.len() as int) =~= loaded@);
        r
    }
}

} // verus!
