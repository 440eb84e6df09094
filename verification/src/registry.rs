//! The resource registry: it owns each registered resource, keyed by the
//! resource's identifier, and carries per resource the cache of replica keys
//! already computed for that identifier.

use vstd::prelude::*;
use crate::assoc::{assoc_map, unique_keys, lemma_assoc_map_contains, lemma_assoc_map_value,
    lemma_assoc_map_push, lemma_assoc_map_remove_at, lemma_assoc_map_len};
use crate::hashing::replica_key;

verus! {

/// Relies on `str`'s `PartialEq`: two string slices compare equal exactly
/// when their characters do.
#[verifier::external_body]
pub(crate) fn str_eq(a: &str, b: &str) -> (r: bool)
    ensures
        r == (a@ == b@),
{
    a == b
}

/// One registered resource: its identifier, the resource itself, and the
/// replica keys already computed for the identifier (the replica key cache).
pub struct ResourceRecord<R> {
    pub id: String,
    pub resource: R,
    pub keys: Vec<Vec<u8>>,
}

pub struct Registry<R> {
    pub records: Vec<ResourceRecord<R>>,
}

impl<R> View for Registry<R> {
    type V = Map<Seq<char>, R>;

    open spec fn view(&self) -> Map<Seq<char>, R> {
        assoc_map(self.pairs())
    }
}

impl<R> Registry<R> {
    /// The records as mathematical identifier-resource pairs, in stored order.
    pub open spec fn pairs(self) -> Seq<(Seq<char>, R)> {
        self.records@.map(|i: int, rec: ResourceRecord<R>| (rec.id@, rec.resource))
    }

    /// The stored identifiers, in stored order.
    pub open spec fn ids(self) -> Seq<Seq<char>> {
        self.records@.map(|i: int, rec: ResourceRecord<R>| rec.id@)
    }

    pub open spec fn spec_len(self) -> nat {
        self.records@.len()
    }

    /// Every cached key is the replica key of its identifier and index.
    pub open spec fn cache_valid(self) -> bool {
        forall|i: int, n: int|
            0 <= i < self.records@.len() && 0 <= n < self.records@[i].keys@.len()
                ==> (#[trigger] self.records@[i].keys@[n])@ == replica_key(
                self.records@[i].id@,
                n as nat,
            )
    }

    /// Identifiers are unique, and the cache holds only true replica keys.
    pub open spec fn wf(self) -> bool {
        &&& forall|i: int, j: int|
            0 <= i < j < self.records@.len() ==> (#[trigger] self.records@[i].id@)
                != (#[trigger] self.records@[j].id@)
        &&& self.cache_valid()
    }

    pub proof fn lemma_unique(self)
        requires
            self.wf(),
        ensures
            unique_keys(self.pairs()),
    {
    }

    /// The number of records equals the size of the map's domain.
    pub proof fn lemma_len(self)
        requires
            self.wf(),
        ensures
            self@.dom().finite(),
            self@.dom().len() == self.spec_len(),
    {
        self.lemma_unique();
        lemma_assoc_map_len(self.pairs());
    }

    /// An identifier is registered exactly when some record holds it.
    pub proof fn lemma_contains(self, id: Seq<char>)
        ensures
            self@.contains_key(id) <==> exists|i: int|
                0 <= i < self.records@.len() && (#[trigger] self.records@[i].id@) == id,
    {
        lemma_assoc_map_contains(self.pairs(), id);
        if self@.contains_key(id) {
            let i = choose|i: int| 0 <= i < self.pairs().len() && self.pairs()[i].0 == id;
            assert(self.records@[i].id@ == id);
        }
        if exists|i: int| 0 <= i < self.records@.len() && (#[trigger] self.records@[i].id@) == id {
            let i = choose|i: int|
                0 <= i < self.records@.len() && (#[trigger] self.records@[i].id@) == id;
            assert(self.pairs()[i].0 == id);
        }
    }

    pub fn new() -> (r: Self)
        ensures
            r.wf(),
            r@ == Map::<Seq<char>, R>::empty(),
            r.spec_len() == 0,
    {
        let r = Registry { records: Vec::new() };
        proof {
            assert(r.pairs().len() == 0);
        }
        r
    }

    pub fn len(&self) -> (r: usize)
        requires
            self.wf(),
        ensures
            r == self.spec_len(),
            r == self@.dom().len(),
    {
        proof {
            self.lemma_len();
        }
        self.records.len()
    }

    /// The position of the record holding `id`, if one does.
    pub fn index_of(&self, id: &str) -> (r: Option<usize>)
        requires
            self.wf(),
        ensures
            match r {
                None => !self@.contains_key(id@),
                Some(j) => j < self.records@.len() && self.records@[j as int].id@ == id@
                    && self@.contains_key(id@),
            },
    {
        let mut j: usize = 0;
        while j < self.records.len()
            invariant
                self.wf(),
                j <= self.records@.len(),
                forall|m: int| 0 <= m < j ==> (#[trigger] self.records@[m].id@) != id@,
            decreases self.records@.len() - j,
        {
            let rec = &self.records[j];
            if str_eq(rec.id.as_str(), id) {
                proof {
                    self.lemma_contains(id@);
                }
                return Some(j);
            }
            j = j + 1;
        }
        proof {
            self.lemma_contains(id@);
        }
        None
    }

    /// Whether a resource with this identifier is registered.
    pub fn contains(&self, id: &str) -> (r: bool)
        requires
            self.wf(),
        ensures
            r == self@.contains_key(id@),
    {
        match self.index_of(id) {
            Some(_) => true,
            None => false,
        }
    }

    /// The registered resource of `id`, if one is registered.
    pub fn get(&self, id: &str) -> (r: Option<&R>)
        requires
            self.wf(),
        ensures
            match r {
                None => !self@.contains_key(id@),
                Some(res) => self@.contains_key(id@) && *res == self@[id@],
            },
    {
        match self.index_of(id) {
            Some(j) => {
                proof {
                    self.lemma_unique();
                    lemma_assoc_map_value(self.pairs(), j as int);
                }
                Some(&self.records[j].resource)
            },
            None => None,
        }
    }

    /// Registers a new record; the identifier must not be registered yet.
    pub fn push_record(&mut self, rec: ResourceRecord<R>)
        requires
            old(self).wf(),
            !old(self)@.contains_key(rec.id@),
            forall|n: int|
                0 <= n < rec.keys@.len() ==> (#[trigger] rec.keys@[n])@ == replica_key(
                    rec.id@,
                    n as nat,
                ),
        ensures
            final(self).wf(),
            final(self)@ == old(self)@.insert(rec.id@, rec.resource),
            final(self).records@ == old(self).records@.push(rec),
            final(self).ids() == old(self).ids().push(rec.id@),
            final(self).spec_len() == old(self).spec_len() + 1,
    {
        let ghost pre = *self;
        proof {
            pre.lemma_contains(rec.id@);
            lemma_assoc_map_push(pre.pairs(), (rec.id@, rec.resource));
        }
        self.records.push(rec);
        proof {
            assert(self.pairs() =~= pre.pairs().push((rec.id@, rec.resource)));
            assert(self.ids() =~= pre.ids().push(rec.id@));
        }
    }

    /// Unregisters the record at position `j` and hands it back, cached keys
    /// and all.
    pub fn remove_at(&mut self, j: usize) -> (rec: ResourceRecord<R>)
        requires
            old(self).wf(),
            j < old(self).records@.len(),
        ensures
            final(self).wf(),
            rec == old(self).records@[j as int],
            final(self).records@ == old(self).records@.remove(j as int),
            final(self)@ == old(self)@.remove(rec.id@),
            final(self).spec_len() == old(self).spec_len() - 1,
    {
        let ghost pre = *self;
        proof {
            pre.lemma_unique();
            assert(pre.pairs()[j as int].0 == pre.records@[j as int].id@);
            lemma_assoc_map_remove_at(pre.pairs(), j as int);
        }
        let rec = self.records.remove(j);
        proof {
            assert(self.pairs() =~= pre.pairs().remove(j as int));
        }
        rec
    }
}

} // verus!
