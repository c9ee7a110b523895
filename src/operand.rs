use vstd::prelude::*;
use crate::element::{words_fit, ElementKind};

verus! {

/// Ownership of an operand's backing storage.
#[derive(Clone, Copy, Debug, PartialEq, Eq, Structural)]
pub enum Identity {
    /// The storage has exactly one live reference.
    Unique,
    /// The storage may be referenced by several nodes; the count is the
    /// number of wrappers created over it so far.
    Shared(u64),
}

/// A tracked array operand: `data.len()` elements of kind `kind`, wrapped
/// over the storage numbered `storage`.
#[derive(Debug)]
pub struct Component {
    pub kind: ElementKind,
    pub storage: usize,
    pub identity: Identity,
    pub data: Vec<u64>,
}

impl Component {
    pub open spec fn wf(&self) -> bool {
        words_fit(self.kind, self.data@)
    }

    pub fn len(&self) -> (r: usize)
        ensures
            r == self.data@.len(),
    {
        self.data.len()
    }
}

/// One array known to a registry.
pub struct Stored {
    pub kind: ElementKind,
    pub data: Vec<u64>,
    /// Number of live wrappers created over this storage.
    pub count: u64,
}

/// Host arrays, each with its own reference count, keyed by storage number.
pub struct Registry {
    pub entries: Vec<Stored>,
}

/// What lifting a storage whose count was `count` marks the new wrapper as.
pub open spec fn identity_after(count: u64) -> Identity {
    if count == 0 {
        Identity::Unique
    } else {
        Identity::Shared((count + 1) as u64)
    }
}

impl Registry {
    pub open spec fn wf(&self) -> bool {
        forall|i: int|
            0 <= i < self.entries@.len() ==> words_fit(
                (#[trigger] self.entries@[i]).kind,
                self.entries@[i].data@,
            )
    }

    pub open spec fn len_spec(&self) -> nat {
        self.entries@.len()
    }

    pub open spec fn count_spec(&self, id: int) -> u64 {
        self.entries@[id].count
    }

    pub open spec fn kind_spec(&self, id: int) -> ElementKind {
        self.entries@[id].kind
    }

    pub open spec fn contents(&self, id: int) -> Seq<u64> {
        self.entries@[id].data@
    }

    /// Everything but the count of storage `id` is as in `old`.
    pub open spec fn same_but_count(&self, old: &Registry, id: int) -> bool {
        &&& self.entries@.len() == old.entries@.len()
        &&& forall|j: int|
            0 <= j < self.entries@.len() ==> {
                &&& (#[trigger] self.entries@[j]).kind == old.entries@[j].kind
                &&& self.entries@[j].data@ == old.entries@[j].data@
                &&& j != id ==> self.entries@[j].count == old.entries@[j].count
            }
    }

    pub fn new() -> (r: Registry)
        ensures
            r.wf(),
            r.len_spec() == 0,
    {
        Registry { entries: Vec::new() }
    }

    pub fn len(&self) -> (r: usize)
        ensures
            r == self.len_spec(),
    {
        self.entries.len()
    }

    /// Takes in a host array of kind `kind`; returns its storage number.
    /// Nothing wraps it yet.
    pub fn store(&mut self, kind: ElementKind, data: Vec<u64>) -> (id: usize)
        requires
            old(self).wf(),
            words_fit(kind, data@),
        ensures
            final(self).wf(),
            id == old(self).len_spec(),
            final(self).len_spec() == old(self).len_spec() + 1,
            final(self).kind_spec(id as int) == kind,
            final(self).contents(id as int) == data@,
            final(self).count_spec(id as int) == 0,
            forall|j: int|
                0 <= j < old(self).len_spec() ==> #[trigger] final(self).entries@[j]
                    == old(self).entries@[j],
    {
        let id = self.entries.len();
        self.entries.push(Stored { kind, data, count: 0 });
        id
    }

    /// Number of live wrappers over storage `id`.
    pub fn count(&self, id: usize) -> (r: u64)
        requires
            id < self.len_spec(),
        ensures
            r == self.count_spec(id as int),
    {
        self.entries[id].count
    }

    /// Wraps storage `id` in a new operand. The first wrapper is `Unique`;
    /// the one made when `k` wrappers already exist is `Shared(k + 1)`.
    pub fn lift(&mut self, id: usize) -> (c: Component)
        requires
            old(self).wf(),
            id < old(self).len_spec(),
            old(self).count_spec(id as int) < u64::MAX,
        ensures
            final(self).wf(),
            final(self).same_but_count(old(self), id as int),
            final(self).count_spec(id as int) == old(self).count_spec(id as int) + 1,
            c.wf(),
            c.storage == id,
            c.kind == old(self).kind_spec(id as int),
            c.data@ == old(self).contents(id as int),
            c.identity == identity_after(old(self).count_spec(id as int)),
    {
        let count = self.entries[id].count;
        let kind = self.entries[id].kind;
        let data = self.entries[id].data.clone();
        let identity = if count == 0 {
            Identity::Unique
        } else {
            Identity::Shared(count + 1)
        };
        let mut entry = self.entries.remove(id);
        entry.count = count + 1;
        self.entries.insert(id, entry);
        proof {
            assert forall|j: int| 0 <= j < self.entries@.len() implies words_fit(
                (#[trigger] self.entries@[j]).kind,
                self.entries@[j].data@,
            ) by {
                if j != id {
                    assert(self.entries@[j] == old(self).entries@[j]);
                }
            }
        }
        Component { kind, storage: id, identity, data }
    }

    /// Drops one wrapper of storage `id`; a count already at zero stays there.
    pub fn release(&mut self, id: usize)
        requires
            old(self).wf(),
            id < old(self).len_spec(),
        ensures
            final(self).wf(),
            final(self).same_but_count(old(self), id as int),
            final(self).count_spec(id as int) == if old(self).count_spec(id as int) == 0 {
                0
            } else {
                old(self).count_spec(id as int) - 1
            },
    {
        let mut entry = self.entries.remove(id);
        if entry.count > 0 {
            entry.count = entry.count - 1;
        }
        self.entries.insert(id, entry);
        proof {
            assert forall|j: int| 0 <= j < self.entries@.len() implies words_fit(
                (#[trigger] self.entries@[j]).kind,
                self.entries@[j].data@,
            ) by {
                if j != id {
                    assert(self.entries@[j] == old(self).entries@[j]);
                }
            }
        }
    }
}

} // verus!
