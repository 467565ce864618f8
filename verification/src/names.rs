//! The table of model-level names seen while reading a model.
use vstd::prelude::*;
use vstd::hash_map::StringHashMap;

use crate::error::LinkError;
use crate::intermediate::{Declaration, NameId, SpecDeclaration};

verus! {

/// The model of a table of interned names: the names in order of first use.
pub type Names = Seq<Seq<char>>;

/// Interning `t` into `names`: its index when present, else appended at the end.
pub open spec fn intern_spec(names: Names, t: Seq<char>) -> (Names, nat) {
    if names.contains(t) {
        (names, names.index_of(t) as nat)
    } else {
        (names.push(t), names.len())
    }
}

/// Interning is idempotent: interning a name a second time gives the same
/// index and adds no name.
pub proof fn lemma_intern_twice(n: Names, t: Seq<char>)
    ensures
        intern_spec(intern_spec(n, t).0, t) == intern_spec(n, t),
{
    if !n.contains(t) {
        let m = n.push(t);
        assert(m[n.len() as int] == t);
        assert(m.contains(t));
        let i = m.index_of(t);
        if i != n.len() {
            assert(n[i] == t);
            assert(n.contains(t));
        }
    }
}

/// Interning keeps the indices of the names already interned, and gives a
/// new name the next index.
pub proof fn lemma_intern_keeps(n: Names, t: Seq<char>)
    requires
        distinct_names(n),
    ensures
        intern_spec(n, t).0.subrange(0, n.len() as int) == n,
        distinct_names(intern_spec(n, t).0),
        intern_spec(n, t).0[intern_spec(n, t).1 as int] == t,
        n.contains(t) ==> intern_spec(n, t).1 < n.len(),
        !n.contains(t) ==> intern_spec(n, t).1 == n.len(),
{
    if n.contains(t) {
        assert(n.subrange(0, n.len() as int) =~= n);
    } else {
        let m = n.push(t);
        assert(m.subrange(0, n.len() as int) =~= n);
        assert(m[n.len() as int] == t);
        let i = m.index_of(t);
        if i != n.len() {
            assert(n[i] == t);
            assert(n.contains(t));
        }
        assert forall|a: int, b: int| 0 <= a < m.len() && 0 <= b < m.len() && a != b implies m[a]
            != m[b] by {
            if a == n.len() {
                assert(m[b] == n[b]);
                if m[b] == t {
                    assert(n.contains(t));
                }
            } else if b == n.len() {
                assert(m[a] == n[a]);
                if m[a] == t {
                    assert(n.contains(t));
                }
            }
        }
    }
}

/// `d` extended with undeclared slots up to length `n`.
pub open spec fn extend_uninit(d: Seq<SpecDeclaration>, n: nat) -> Seq<SpecDeclaration> {
    d + Seq::new((n - d.len()) as nat, |i: int| SpecDeclaration::Uninit)
}

/// `f` is `o` after interning more names: the earlier names and declarations
/// stay, and each new name is undeclared.
pub open spec fn grown(o: &NameStore, f: &NameStore) -> bool {
    &&& f.wf()
    &&& o.names().len() <= f.names().len()
    &&& f.names().subrange(0, o.names().len() as int) == o.names()
    &&& f.decls() == extend_uninit(o.decls(), f.names().len())
}

pub proof fn lemma_grown_trans(a: &NameStore, b: &NameStore, c: &NameStore)
    requires
        a.wf(),
        grown(a, b),
        grown(b, c),
    ensures
        grown(a, c),
{
    assert(c.names().subrange(0, a.names().len() as int) =~= b.names().subrange(
        0,
        a.names().len() as int,
    ));
    assert(c.decls() =~= extend_uninit(a.decls(), c.names().len()));
}

pub proof fn lemma_grown_refl(a: &NameStore)
    requires
        a.wf(),
    ensures
        grown(a, a),
{
    assert(a.names().subrange(0, a.names().len() as int) =~= a.names());
    assert(a.decls() =~= extend_uninit(a.decls(), a.names().len()));
}

/// The names are pairwise distinct.
pub open spec fn distinct_names(names: Names) -> bool {
    forall|i: int, j: int| 0 <= i < names.len() && 0 <= j < names.len() && i != j ==> names[i]
        != names[j]
}

/// One slot of the table.
#[derive(Debug)]
pub struct NameEntry {
    /// The name text.
    pub name: String,
    /// What the name has been declared as so far.
    pub declaration: Declaration,
}

/// A single namespace for all variable and array names of a model.
pub struct NameStore {
    entries: Vec<NameEntry>,
    lookup: StringHashMap<usize>,
}

impl NameStore {
    /// The interned names, in order of first use.
    pub closed spec fn names(&self) -> Names {
        self.entries@.map_values(|e: NameEntry| e.name@)
    }

    /// The declaration state of each interned name.
    pub closed spec fn decls(&self) -> Seq<SpecDeclaration> {
        self.entries@.map_values(|e: NameEntry| e.declaration@)
    }

    /// The table is consistent: the lookup map finds each name at its index.
    pub closed spec fn wf(&self) -> bool {
        &&& distinct_names(self.names())
        &&& self.decls().len() == self.names().len()
        &&& forall|k: Seq<char>| #[trigger]
            self.lookup@.contains_key(k) <==> self.names().contains(k)
        &&& forall|i: int| 0 <= i < self.entries@.len() ==> #[trigger] self.lookup@[self.entries@[i].name@] == i
    }

    /// An empty table.
    pub fn new() -> (r: Self)
        ensures
            r.wf(),
            r.names() == Seq::<Seq<char>>::empty(),
            r.decls() == Seq::<SpecDeclaration>::empty(),
    {
        let r = NameStore { entries: Vec::new(), lookup: StringHashMap::new() };
        proof {
            assert(r.names() =~= Seq::<Seq<char>>::empty());
            assert(r.decls() =~= Seq::<SpecDeclaration>::empty());
        }
        r
    }

    /// The number of interned names.
    pub fn len(&self) -> (r: usize)
        ensures
            r == self.names().len(),
            r == self.decls().len(),
    {
        self.entries.len()
    }

    proof fn lemma_index(&self, t: Seq<char>)
        requires
            self.wf(),
            self.names().contains(t),
        ensures
            0 <= self.names().index_of(t) < self.names().len(),
            self.names()[self.names().index_of(t)] == t,
            self.lookup@[t] == self.names().index_of(t),
    {
        let i = self.names().index_of(t);
        assert(self.names()[i] == self.entries@[i].name@);
        assert(self.lookup@[self.entries@[i].name@] == i);
    }

    /// Intern `name`, returning its index.
    pub fn intern(&mut self, name: String) -> (id: NameId)
        requires
            old(self).wf(),
        ensures
            grown(old(self), final(self)),
            (final(self).names(), id as nat) == intern_spec(old(self).names(), name@),
            id < final(self).names().len(),
    {
        match self.lookup.get(name.as_str()) {
            Some(id) => {
                proof {
                    self.lemma_index(name@);
                    lemma_grown_refl(self);
                }
                *id
            },
            None => {
                let id = self.entries.len();
                let ghost old_names = self.names();
                let key = name.clone();
                self.entries.push(NameEntry { name, declaration: Declaration::Uninit });
                self.lookup.insert(key, id);
                proof {
                    assert(self.names() =~= old_names.push(name@));
                    assert(self.decls() =~= extend_uninit(old(self).decls(), self.names().len()));
                    assert(self.names().subrange(0, old_names.len() as int) =~= old_names);
                    assert forall|k: Seq<char>| #[trigger]
                        self.lookup@.contains_key(k) <==> self.names().contains(k) by {
                        if k == name@ {
                            assert(self.names()[id as int] == k);
                        } else if self.names().contains(k) {
                            let j = choose|j: int| 0 <= j < self.names().len() && self.names()[j] == k;
                            assert(j < id);
                            assert(old_names[j] == k);
                        } else if old(self).lookup@.contains_key(k) {
                            let j = choose|j: int| 0 <= j < old_names.len() && old_names[j] == k;
                            assert(self.names()[j] == k);
                        }
                    }
                    assert forall|i: int, j: int|
                        0 <= i < self.names().len() && 0 <= j < self.names().len() && i != j
                        implies self.names()[i] != self.names()[j] by {
                        if i == id as int {
                            assert(!old_names.contains(name@));
                            assert(old_names[j] == self.names()[j]);
                        } else if j == id as int {
                            assert(old_names[i] == self.names()[i]);
                        }
                    }
                    assert forall|i: int| 0 <= i < self.entries@.len() implies #[trigger] self.lookup@[self.entries@[i].name@] == i by {
                        if i < id {
                            assert(self.entries@[i] == old(self).entries@[i]);
                            assert(old(self).lookup@[old(self).entries@[i].name@] == i);
                            assert(old_names[i] != name@);
                        }
                    }
                }
                id
            },
        }
    }

    /// The text of name `id`.
    pub fn name_of(&self, id: NameId) -> (r: String)
        requires
            id < self.names().len(),
        ensures
            r@ == self.names()[id as int],
    {
        self.entries[id].name.clone()
    }

    /// Declare name `id` as `decl`, refusing a second declaration of a name.
    pub fn define_name(&mut self, id: NameId, decl: Declaration) -> (r: Result<(), LinkError>)
        requires
            old(self).wf(),
            id < old(self).names().len(),
        ensures
            final(self).wf(),
            final(self).names() == old(self).names(),
            old(self).decls()[id as int] is Uninit ==> r is Ok && final(self).decls() == old(
                self,
            ).decls().update(id as int, decl@),
            !(old(self).decls()[id as int] is Uninit) ==> (r matches Err(
                LinkError::DuplicateDefinition(n),
            ) && n@ == old(self).names()[id as int]) && final(self).decls() == old(self).decls(),
    {
        let uninit = match &self.entries[id].declaration {
            Declaration::Uninit => true,
            _ => false,
        };
        if uninit {
            let name = self.entries[id].name.clone();
            let ghost old_names = self.names();
            self.entries.set(id, NameEntry { name, declaration: decl });
            proof {
                assert(self.names() =~= old_names);
                assert(self.decls() =~= old(self).decls().update(id as int, decl@));
            }
            Ok(())
        } else {
            Err(LinkError::DuplicateDefinition(self.entries[id].name.clone()))
        }
    }

    /// A consistent table has a declaration state for each name.
    pub proof fn lemma_lens(&self)
        requires
            self.wf(),
        ensures
            self.decls().len() == self.names().len(),
    {
    }

    /// A consistent table holds each name once.
    pub proof fn lemma_distinct(&self)
        requires
            self.wf(),
        ensures
            distinct_names(self.names()),
    {
    }

    /// The index under which the table finds each name.
    pub closed spec fn index(&self) -> Map<Seq<char>, nat> {
        self.lookup@.map_values(|i: usize| i as nat)
    }

    /// In a consistent table, however it was built from an empty one, the
    /// index finds exactly the interned names, each at its own slot.
    pub proof fn lemma_index_finds_slots(&self)
        requires
            self.wf(),
        ensures
            self.index().dom() == self.names().to_set(),
            forall|i: int| 0 <= i < self.names().len() ==> #[trigger] self.index()[self.names()[i]] == i,
            distinct_names(self.names()),
    {
        assert forall|k: Seq<char>| self.index().dom().contains(k) <==> self.names().to_set().contains(k) by {
            assert(self.lookup@.contains_key(k) <==> self.names().contains(k));
        }
        assert(self.index().dom() =~= self.names().to_set());
        assert forall|i: int| 0 <= i < self.names().len() implies #[trigger] self.index()[self.names()[i]] == i by {
            assert(self.names()[i] == self.entries@[i].name@);
            assert(self.lookup@[self.entries@[i].name@] == i);
            assert(self.names().contains(self.names()[i]));
            assert(self.lookup@.contains_key(self.names()[i]));
        }
    }

    /// The declaration of name `id`.
    pub fn declaration(&self, id: NameId) -> (r: &Declaration)
        requires
            self.wf(),
            id < self.names().len(),
        ensures
            r@ == self.decls()[id as int],
    {
        &self.entries[id].declaration
    }

    /// Replace the declaration of name `id`.
    pub fn set_declaration(&mut self, id: NameId, decl: Declaration)
        requires
            old(self).wf(),
            id < old(self).names().len(),
        ensures
            final(self).wf(),
            final(self).names() == old(self).names(),
            final(self).decls() == old(self).decls().update(id as int, decl@),
    {
        let name = self.entries[id].name.clone();
        let ghost before = self.entries@;
        self.entries.set(id, NameEntry { name, declaration: decl });
        proof {
            assert(self.names() =~= before.map_values(|e: NameEntry| e.name@));
            assert(self.decls() =~= before.map_values(|e: NameEntry| e.declaration@).update(id as int, decl@));
            assert forall|i: int| 0 <= i < self.entries@.len() implies #[trigger] self.lookup@[self.entries@[i].name@] == i by {
                assert(self.entries@[i].name@ == before[i].name@);
            }
        }
    }

    /// The slots of the table, in order.
    pub fn into_entries(self) -> (r: Vec<NameEntry>)
        ensures
            r@.map_values(|e: NameEntry| e.name@) == self.names(),
            r@.map_values(|e: NameEntry| e.declaration@) == self.decls(),
    {
        self.entries
    }
}

} // verus!
