//! A consistent hash ring: lookup keys are mapped to named resources through
//! an ordered key space of hash digests, so that a membership change remaps
//! only a bounded share of the keys. Replica entries spread each resource
//! around the ring; a rebalancing policy grows the replica count with the
//! resource set.

use vstd::prelude::*;

pub mod assoc;
pub mod hashing;
pub mod laws;
pub mod model;
pub mod order;
pub mod registry;
pub mod ring;

use crate::hashing::{blake3_digest, replica_key, compute_replica_key, digest_of};
use crate::model::{sat_add, sat_add_usize, with_replica_keys, without_replica_keys, rebuilt_ring,
    lemma_with_replica_keys, lemma_without_replica_keys, lemma_rebuilt_ring};
use crate::registry::{Registry, ResourceRecord};
use crate::ring::{RingIndex, owner_key, copy_bytes};

verus! {

/// Things that we can store in the ring must have an ID string they
/// advertise, stable for the value's lifetime.
pub trait HasId {
    /// The identifier, as a mathematical value.
    spec fn spec_id(&self) -> Seq<char>;

    /// The identifier string.
    fn id(&self) -> (r: &str)
        ensures
            r@ == self.spec_id(),
    ;
}

/// A minimal resource: a bare name.
pub struct NamedResource {
    pub name: String,
}

impl HasId for NamedResource {
    open spec fn spec_id(&self) -> Seq<char> {
        self.name@
    }

    fn id(&self) -> (r: &str) {
        self.name.as_str()
    }
}

/// Extends a resource's cached replica keys up to `count` entries.
fn fill_keys(id: &str, keys: &mut Vec<Vec<u8>>, count: usize)
    requires
        forall|n: int|
            0 <= n < old(keys)@.len() ==> (#[trigger] old(keys)@[n])@ == replica_key(
                id@,
                n as nat,
            ),
    ensures
        final(keys)@.len() >= count,
        final(keys)@.len() >= old(keys)@.len(),
        old(keys)@.len() <= count ==> final(keys)@.len() == count,
        forall|n: int|
            0 <= n < final(keys)@.len() ==> (#[trigger] final(keys)@[n])@ == replica_key(
                id@,
                n as nat,
            ),
{
    let ghost orig = keys@;
    while keys.len() < count
        invariant
            keys@.len() >= orig.len(),
            orig.len() <= count ==> keys@.len() <= count,
            forall|n: int|
                0 <= n < keys@.len() ==> (#[trigger] keys@[n])@ == replica_key(id@, n as nat),
        decreases count - keys@.len(),
    {
        let n = keys.len();
        let k = compute_replica_key(id, n);
        keys.push(k);
    }
}

/// Inserts the first `count` replica entries of `id` into the ring index,
/// and reports whether every one of them landed on a previously unoccupied
/// key.
fn insert_replica_entries(ring: &mut RingIndex, id: &str, keys: &Vec<Vec<u8>>, count: usize) -> (all_fresh: bool)
    requires
        old(ring).wf(),
        count <= keys@.len(),
        forall|n: int|
            0 <= n < keys@.len() ==> (#[trigger] keys@[n])@ == replica_key(id@, n as nat),
    ensures
        final(ring).wf(),
        final(ring)@ == with_replica_keys(old(ring)@, id@, count as nat),
        final(ring).spec_len() <= old(ring).spec_len() + count,
        all_fresh ==> (forall|j: nat|
            j < count ==> !old(ring)@.contains_key(#[trigger] replica_key(id@, j))),
        all_fresh ==> (forall|j1: nat, j2: nat|
            #![trigger replica_key(id@, j1), replica_key(id@, j2)]
            j1 < j2 < count ==> replica_key(id@, j1) != replica_key(id@, j2)),
        all_fresh ==> final(ring).spec_len() == old(ring).spec_len() + count,
{
    let ghost orig = *ring;
    let mut all_fresh = true;
    let mut i: usize = 0;
    while i < count
        invariant
            ring.wf(),
            i <= count,
            count <= keys@.len(),
            forall|n: int|
                0 <= n < keys@.len() ==> (#[trigger] keys@[n])@ == replica_key(id@, n as nat),
            ring@ == with_replica_keys(orig@, id@, i as nat),
            ring.spec_len() <= orig.spec_len() + i,
            all_fresh ==> (forall|j: nat|
                j < i ==> !orig@.contains_key(#[trigger] replica_key(id@, j))),
            all_fresh ==> (forall|j1: nat, j2: nat|
                #![trigger replica_key(id@, j1), replica_key(id@, j2)]
                j1 < j2 < i ==> replica_key(id@, j1) != replica_key(id@, j2)),
            all_fresh ==> ring.spec_len() == orig.spec_len() + i,
        decreases count - i,
    {
        let k = copy_bytes(&keys[i]);
        let idc = id.to_owned();
        proof {
            lemma_with_replica_keys(orig@, id@, i as nat);
        }
        let ghost before = *ring;
        let fresh = ring.insert(k, idc);
        proof {
            assert(ring@ == with_replica_keys(orig@, id@, (i + 1) as nat));
            if all_fresh && fresh {
                // the key was new to the partly built ring, so it is neither
                // in the original ring nor equal to an earlier replica key
                assert(!before@.contains_key(replica_key(id@, i as nat)));
                assert(!orig@.contains_key(replica_key(id@, i as nat)));
                assert forall|j: nat| j < i implies replica_key(id@, j) != replica_key(
                    id@,
                    i as nat,
                ) by {
                    if replica_key(id@, j) == replica_key(id@, i as nat) {
                        assert(before@.contains_key(replica_key(id@, j)));
                    }
                }
            }
        }
        all_fresh = all_fresh && fresh;
        i = i + 1;
    }
    all_fresh
}

/// A consistent hash ring with blue glowing lights.
pub struct LightCycle<R> {
    /// The number of replicas of each resource to insert into the ring.
    pub replicas: usize,
    /// The resource count past which `add` triggers a rebalance.
    pub size_threshold: usize,
    /// Growth padding: what the resource count grows by to give the new
    /// replica count when rebalancing.
    pub replica_pad: usize,
    /// Growth padding: what the resource count grows by to give the new size
    /// threshold when rebalancing.
    pub size_pad: usize,
    /// The resources we're tracking, each with its cached replica keys.
    pub registry: Registry<R>,
    /// The consistent hash ring itself: each entry points to a key in the
    /// resource registry.
    pub ring: RingIndex,
    /// Whether every entry placed in the ring since its last full rebuild
    /// landed on an unoccupied key. Hash collisions are possible in
    /// principle; the counting guarantees hold when none has occurred.
    pub no_collisions: Ghost<bool>,
}

impl<R> LightCycle<R> {
    /// The registered resources, by identifier.
    pub open spec fn resources(self) -> Map<Seq<char>, R> {
        self.registry@
    }

    /// The ring index, from replica key to resource identifier.
    pub open spec fn ring_map(self) -> Map<Seq<u8>, Seq<char>> {
        self.ring@
    }

    pub open spec fn resource_count_spec(self) -> nat {
        self.registry.spec_len()
    }

    pub open spec fn ring_len(self) -> nat {
        self.ring.spec_len()
    }

    /// Every ring entry points at a registered resource, through one of its
    /// first `replicas` replica keys.
    pub open spec fn ring_sound(self) -> bool {
        forall|k: Seq<u8>| #[trigger] self.ring@.contains_key(k) ==> self.registry@.contains_key(
            self.ring@[k],
        ) && (exists|n: nat| n < self.replicas && k == replica_key(self.ring@[k], n))
    }

    /// Every registered resource owns exactly `replicas` ring entries: all
    /// its replica keys are present, point back at it, and differ from every
    /// other live replica key.
    pub open spec fn ring_complete(self) -> bool {
        &&& forall|id: Seq<char>, n: nat|
            self.registry@.contains_key(id) && n < self.replicas ==> self.ring@.contains_key(
                #[trigger] replica_key(id, n),
            ) && self.ring@[replica_key(id, n)] == id
        &&& forall|id1: Seq<char>, n1: nat, id2: Seq<char>, n2: nat|
            #![trigger replica_key(id1, n1), replica_key(id2, n2)]
            self.registry@.contains_key(id1) && n1 < self.replicas
                && self.registry@.contains_key(id2) && n2 < self.replicas && replica_key(id1, n1)
                == replica_key(id2, n2) ==> id1 == id2 && n1 == n2
        &&& self.ring.spec_len() == self.registry.spec_len() * self.replicas
    }

    /// The controller's invariant.
    pub open spec fn wf(self) -> bool {
        &&& self.registry.wf()
        &&& self.ring.wf()
        &&& forall|i: int|
            0 <= i < self.registry.records@.len() ==> (#[trigger] self.registry.records@[i]).keys@.len()
                >= self.replicas
        &&& self.ring_sound()
        &&& (self.no_collisions@ ==> self.ring_complete())
    }

    /// A ring that never rebalances on its own: the size threshold is put
    /// out of reach and the growth paddings are zero.
    pub fn new_with_replica_count(replicas: usize) -> (r: Self)
        ensures
            r.wf(),
            r.replicas == replicas,
            r.size_threshold == usize::MAX,
            r.replica_pad == 0,
            r.size_pad == 0,
            r.resources() == Map::<Seq<char>, R>::empty(),
            r.ring_map() == Map::<Seq<u8>, Seq<char>>::empty(),
            r.resource_count_spec() == 0,
            r.ring_len() == 0,
            r.no_collisions@,
    {
        let r = LightCycle {
            replicas,
            size_threshold: usize::MAX,
            replica_pad: 0,
            size_pad: 0,
            registry: Registry::new(),
            ring: RingIndex::new(),
            no_collisions: Ghost(true),
        };
        proof {
            assert(r.ring.spec_len() == r.registry.spec_len() * r.replicas);
        }
        r
    }

    /// A ring that rebalances itself: when the resource count grows past
    /// `size_threshold`, the replica count and the threshold are recomputed
    /// from the resource count plus the given paddings.
    pub fn new_with_rebalancing(
        replicas: usize,
        size_threshold: usize,
        replica_pad: usize,
        size_pad: usize,
    ) -> (r: Self)
        ensures
            r.wf(),
            r.replicas == replicas,
            r.size_threshold == size_threshold,
            r.replica_pad == replica_pad,
            r.size_pad == size_pad,
            r.resources() == Map::<Seq<char>, R>::empty(),
            r.ring_map() == Map::<Seq<u8>, Seq<char>>::empty(),
            r.resource_count_spec() == 0,
            r.ring_len() == 0,
            r.no_collisions@,
    {
        let r = LightCycle {
            replicas,
            size_threshold,
            replica_pad,
            size_pad,
            registry: Registry::new(),
            ring: RingIndex::new(),
            no_collisions: Ghost(true),
        };
        proof {
            assert(r.ring.spec_len() == r.registry.spec_len() * r.replicas);
        }
        r
    }

    /// Resource count.
    pub fn resource_count(&self) -> (r: usize)
        requires
            self.wf(),
        ensures
            r == self.resource_count_spec(),
            r == self.resources().dom().len(),
    {
        self.registry.len()
    }

    /// Total number of entries in the ring.
    pub fn len(&self) -> (r: usize)
        requires
            self.wf(),
        ensures
            r == self.ring_len(),
            r == self.ring_map().dom().len(),
    {
        self.ring.len()
    }

    /// Recomputes the replica count and the size threshold from the current
    /// resource count plus the growth paddings, then rebuilds the whole ring
    /// index at the new replica count, reusing cached replica keys and
    /// computing fresh ones only for the new replica indices.
    pub fn rebalance(&mut self)
        requires
            old(self).wf(),
        ensures
            final(self).wf(),
            final(self).resources() == old(self).resources(),
            final(self).resource_count_spec() == old(self).resource_count_spec(),
            final(self).registry.ids() == old(self).registry.ids(),
            final(self).replicas as nat == sat_add(
                old(self).resource_count_spec(),
                old(self).replica_pad as nat,
            ),
            final(self).size_threshold as nat == sat_add(
                old(self).resource_count_spec(),
                old(self).size_pad as nat,
            ),
            final(self).replica_pad == old(self).replica_pad,
            final(self).size_pad == old(self).size_pad,
            final(self).ring_map() == rebuilt_ring(
                old(self).registry.ids(),
                final(self).replicas as nat,
            ),
            final(self).no_collisions@ ==> final(self).ring_len()
                == final(self).resource_count_spec() * final(self).replicas,
    {
        let ghost pre = *self;
        let rc = self.registry.records.len();
        let new_replicas = sat_add_usize(rc, self.replica_pad);
        let new_threshold = sat_add_usize(rc, self.size_pad);
        self.replicas = new_replicas;
        self.size_threshold = new_threshold;
        // first pass: grow every resource's cached replica keys
        let mut idx: usize = 0;
        while idx < self.registry.records.len()
            invariant
                self.registry.wf(),
                self.registry.records@.len() == pre.registry.records@.len(),
                self.registry.pairs() == pre.registry.pairs(),
                self.registry.ids() == pre.registry.ids(),
                forall|m: int|
                    0 <= m < idx ==> (#[trigger] self.registry.records@[m]).keys@.len()
                        >= self.replicas,
                self.replicas == new_replicas,
                self.size_threshold == new_threshold,
                self.replica_pad == pre.replica_pad,
                self.size_pad == pre.size_pad,
                self.ring == pre.ring,
                self.no_collisions == pre.no_collisions,
                idx <= self.registry.records@.len(),
            decreases self.registry.records@.len() - idx,
        {
            let ghost before = self.registry.records@;
            let mut rec = self.registry.records.remove(idx);
            fill_keys(rec.id.as_str(), &mut rec.keys, self.replicas);
            self.registry.records.insert(idx, rec);
            proof {
                assert(self.registry.records@ =~= before.update(idx as int, rec));
                assert(self.registry.pairs() =~= pre.registry.pairs());
                assert(self.registry.ids() =~= pre.registry.ids());
            }
            idx = idx + 1;
        }
        // second pass: rebuild the ring index from scratch at the new count
        self.ring = RingIndex::new();
        self.no_collisions = Ghost(true);
        let ghost ids = self.registry.ids();
        proof {
            assert(ids.take(0) =~= Seq::<Seq<char>>::empty());
        }
        let mut idx2: usize = 0;
        while idx2 < self.registry.records.len()
            invariant
                self.registry.wf(),
                self.registry.records@.len() == pre.registry.records@.len(),
                self.registry.pairs() == pre.registry.pairs(),
                self.registry.ids() == ids,
                ids == pre.registry.ids(),
                ids.len() == self.registry.records@.len(),
                forall|m: int|
                    0 <= m < self.registry.records@.len()
                        ==> (#[trigger] self.registry.records@[m]).keys@.len() >= self.replicas,
                self.replicas == new_replicas,
                self.size_threshold == new_threshold,
                self.replica_pad == pre.replica_pad,
                self.size_pad == pre.size_pad,
                idx2 <= self.registry.records@.len(),
                self.ring.wf(),
                self.ring@ == rebuilt_ring(ids.take(idx2 as int), self.replicas as nat),
                self.no_collisions@ ==> (forall|m: int, n: nat|
                    0 <= m < idx2 && n < self.replicas ==> self.ring@.contains_key(
                        #[trigger] replica_key(ids[m], n),
                    ) && self.ring@[replica_key(ids[m], n)] == ids[m]),
                self.no_collisions@ ==> (forall|m1: int, n1: nat, m2: int, n2: nat|
                    #![trigger replica_key(ids[m1], n1), replica_key(ids[m2], n2)]
                    0 <= m1 < idx2 && n1 < self.replicas && 0 <= m2 < idx2 && n2 < self.replicas
                        && replica_key(ids[m1], n1) == replica_key(ids[m2], n2) ==> m1 == m2 && n1
                        == n2),
                self.no_collisions@ ==> self.ring.spec_len() == idx2 * self.replicas as nat,
            decreases self.registry.records@.len() - idx2,
        {
            let ghost ring_before = self.ring@;
            let ghost cf_before = self.no_collisions@;
            let all_fresh = insert_replica_entries(
                &mut self.ring,
                self.registry.records[idx2].id.as_str(),
                &self.registry.records[idx2].keys,
                self.replicas,
            );
            let ghost newcf2 = self.no_collisions@ && all_fresh;
            self.no_collisions = Ghost(newcf2);
            proof {
                let m = idx2 as int;
                assert(self.registry.ids()[m] == self.registry.records@[m].id@);
                assert(ids.take(m + 1).drop_last() =~= ids.take(m));
                assert(ids.take(m + 1).last() == ids[m]);
                assert(self.ring@ == rebuilt_ring(ids.take(m + 1), self.replicas as nat));
                if self.no_collisions@ {
                    assert(cf_before && all_fresh);
                    assert forall|m0: int, n: nat|
                        0 <= m0 < idx2 + 1 && n < self.replicas implies self.ring@.contains_key(
                        #[trigger] replica_key(ids[m0], n)) && self.ring@[replica_key(ids[m0], n)]
                        == ids[m0] by {
                        lemma_with_replica_keys(ring_before, ids[m], self.replicas as nat);
                        if m0 == m {
                        } else {
                            assert(ring_before.contains_key(replica_key(ids[m0], n)));
                            assert(ring_before[replica_key(ids[m0], n)] == ids[m0]);
                            assert(!(exists|j: nat|
                                j < self.replicas && replica_key(ids[m0], n) == replica_key(
                                    ids[m],
                                    j,
                                ))) by {
                                if exists|j: nat|
                                    j < self.replicas && replica_key(ids[m0], n) == replica_key(
                                        ids[m],
                                        j,
                                    ) {
                                    let j = choose|j: nat|
                                        j < self.replicas && replica_key(ids[m0], n)
                                            == replica_key(ids[m], j);
                                    assert(!ring_before.contains_key(replica_key(ids[m], j)));
                                    assert(false);
                                }
                            }
                        }
                    }
                    assert forall|m1: int, n1: nat, m2: int, n2: nat|
                        #![trigger replica_key(ids[m1], n1), replica_key(ids[m2], n2)]
                        0 <= m1 < idx2 + 1 && n1 < self.replicas && 0 <= m2 < idx2 + 1 && n2
                            < self.replicas && replica_key(ids[m1], n1) == replica_key(
                            ids[m2],
                            n2,
                        ) implies m1 == m2 && n1 == n2 by {
                        if m1 == m && m2 == m {
                            if n1 < n2 {
                                assert(replica_key(ids[m], n1) != replica_key(ids[m], n2));
                            }
                            if n2 < n1 {
                                assert(replica_key(ids[m], n2) != replica_key(ids[m], n1));
                            }
                        } else if m1 == m {
                            assert(ring_before.contains_key(replica_key(ids[m2], n2)));
                            assert(!ring_before.contains_key(replica_key(ids[m], n1)));
                            assert(false);
                        } else if m2 == m {
                            assert(ring_before.contains_key(replica_key(ids[m1], n1)));
                            assert(!ring_before.contains_key(replica_key(ids[m], n2)));
                            assert(false);
                        }
                    }
                    assert((idx2 + 1) * self.replicas as nat == idx2 * self.replicas as nat
                        + self.replicas as nat) by (nonlinear_arith);
                }
            }
            idx2 = idx2 + 1;
        }
        proof {
            assert(ids.take(ids.len() as int) =~= ids);
            lemma_rebuilt_ring(ids, self.replicas as nat);
            // soundness of the rebuilt ring
            assert forall|k: Seq<u8>| #[trigger] self.ring@.contains_key(k) implies
                self.registry@.contains_key(self.ring@[k]) && (exists|n: nat|
                n < self.replicas && k == replica_key(self.ring@[k], n)) by {
                let (m, j): (int, nat) = choose|m: int, j: nat|
                    0 <= m < ids.len() && j < self.replicas as nat && k == replica_key(ids[m], j)
                        && rebuilt_ring(ids, self.replicas as nat)[k] == ids[m];
                assert(self.ring@[k] == ids[m]);
                assert(self.registry.records@[m].id@ == ids[m]);
                assert(self.registry@.contains_key(ids[m])) by {
                    self.registry.lemma_contains(ids[m]);
                }
                assert(k == replica_key(self.ring@[k], j));
            }
            // completeness, when the rebuild saw no collision
            if self.no_collisions@ {
                assert forall|id2: Seq<char>, n: nat|
                    self.registry@.contains_key(id2) && n < self.replicas implies
                    self.ring@.contains_key(#[trigger] replica_key(id2, n)) && self.ring@[
                replica_key(id2, n)] == id2 by {
                    self.registry.lemma_contains(id2);
                    let m = choose|m: int|
                        0 <= m < self.registry.records@.len()
                            && (#[trigger] self.registry.records@[m].id@) == id2;
                    assert(ids[m] == id2);
                }
                assert forall|id1: Seq<char>, n1: nat, id2: Seq<char>, n2: nat|
                    #![trigger replica_key(id1, n1), replica_key(id2, n2)]
                    self.registry@.contains_key(id1) && n1 < self.replicas
                        && self.registry@.contains_key(id2) && n2 < self.replicas && replica_key(
                        id1,
                        n1,
                    ) == replica_key(id2, n2) implies id1 == id2 && n1 == n2 by {
                    self.registry.lemma_contains(id1);
                    self.registry.lemma_contains(id2);
                    let m1 = choose|m: int|
                        0 <= m < self.registry.records@.len()
                            && (#[trigger] self.registry.records@[m].id@) == id1;
                    let m2 = choose|m: int|
                        0 <= m < self.registry.records@.len()
                            && (#[trigger] self.registry.records@[m].id@) == id2;
                    assert(ids[m1] == id1);
                    assert(ids[m2] == id2);
                }
            }
            assert(self.wf());
        }
    }
}

impl<R: HasId> LightCycle<R> {
    /// Given something you want to place on the ring, looks up the matching
    /// resource to use: the registered resource owning the smallest replica
    /// key at or after the hashed lookup key, wrapping around to the
    /// smallest replica key altogether. Nothing only when the ring is empty.
    pub fn locate(&self, key: &str) -> (r: Option<&R>)
        requires
            self.wf(),
        ensures
            r is Some <==> self.ring_len() != 0,
            match r {
                None => self.ring_len() == 0,
                Some(res) => exists|k: Seq<u8>|
                    #[trigger] owner_key(self.ring_map(), blake3_digest(key@), k)
                        && self.resources().contains_key(self.ring_map()[k]) && *res
                        == self.resources()[self.ring_map()[k]],
            },
    {
        let q = digest_of(key);
        match self.ring.successor(&q) {
            None => None,
            Some(id_ref) => {
                let ghost k = choose|k: Seq<u8>|
                    owner_key(self.ring@, q@, k) && self.ring@[k] == id_ref@;
                proof {
                    assert(self.ring@.contains_key(k));
                    assert(self.registry@.contains_key(id_ref@));
                }
                let got = self.registry.get(id_ref.as_str());
                match got {
                    Some(res) => {
                        proof {
                            assert(q@ == blake3_digest(key@));
                            assert(owner_key(self.ring_map(), blake3_digest(key@), k));
                            assert(self.resources().contains_key(self.ring_map()[k]));
                            assert(*res == self.resources()[self.ring_map()[k]]);
                        }
                        Some(res)
                    },
                    None => {
                        // unreachable: the owner named by the ring index is
                        // always registered
                        proof {
                            assert(self.registry@.contains_key(id_ref@));
                            assert(false);
                        }
                        None
                    },
                }
            },
        }
    }

    /// Adds a resource. Re-adding a registered identifier is a no-op that
    /// leaves the ring untouched; otherwise the resource's replica entries
    /// are placed in the ring, the resource is registered, and a rebalance
    /// runs when the resource count has outgrown the size threshold.
    pub fn add(&mut self, resource: R)
        requires
            old(self).wf(),
        ensures
            final(self).wf(),
            final(self).replica_pad == old(self).replica_pad,
            final(self).size_pad == old(self).size_pad,
            old(self).resources().contains_key(resource.spec_id()) ==> *final(self) == *old(self),
            !old(self).resources().contains_key(resource.spec_id()) ==> {
                &&& final(self).resources() == old(self).resources().insert(
                    resource.spec_id(),
                    resource,
                )
                &&& final(self).resource_count_spec() == old(self).resource_count_spec() + 1
                &&& if old(self).resource_count_spec() + 1 > old(self).size_threshold {
                    &&& final(self).replicas as nat == sat_add(
                        old(self).resource_count_spec() + 1,
                        old(self).replica_pad as nat,
                    )
                    &&& final(self).size_threshold as nat == sat_add(
                        old(self).resource_count_spec() + 1,
                        old(self).size_pad as nat,
                    )
                    &&& final(self).ring_map() == rebuilt_ring(
                        old(self).registry.ids().push(resource.spec_id()),
                        final(self).replicas as nat,
                    )
                } else {
                    &&& final(self).replicas == old(self).replicas
                    &&& final(self).size_threshold == old(self).size_threshold
                    &&& final(self).ring_map() == with_replica_keys(
                        old(self).ring_map(),
                        resource.spec_id(),
                        old(self).replicas as nat,
                    )
                    &&& (final(self).no_collisions@ ==> old(self).no_collisions@)
                }
            },
    {
        let ghost pre = *self;
        let id = resource.id().to_owned();
        if self.registry.contains(id.as_str()) {
            return;
        }
        let mut keys: Vec<Vec<u8>> = Vec::new();
        fill_keys(id.as_str(), &mut keys, self.replicas);
        let all_fresh = insert_replica_entries(&mut self.ring, id.as_str(), &keys, self.replicas);
        let ghost newcf = self.no_collisions@ && all_fresh;
        self.no_collisions = Ghost(newcf);
        let rec = ResourceRecord { id, resource, keys };
        self.registry.push_record(rec);
        proof {
            lemma_with_replica_keys(pre.ring@, rec.id@, pre.replicas as nat);
            let rid = rec.id@;
            // soundness of the grown ring
            assert forall|k: Seq<u8>| #[trigger] self.ring@.contains_key(k) implies
                self.registry@.contains_key(self.ring@[k]) && (exists|n: nat|
                n < self.replicas && k == replica_key(self.ring@[k], n)) by {
                if exists|j: nat| j < pre.replicas && k == replica_key(rid, j) {
                    let j = choose|j: nat| j < pre.replicas && k == replica_key(rid, j);
                    assert(self.ring@[k] == rid);
                    assert(k == replica_key(self.ring@[k], j));
                } else {
                    assert(pre.ring@.contains_key(k));
                    assert(self.ring@[k] == pre.ring@[k]);
                    let n = choose|n: nat| n < pre.replicas && k == replica_key(pre.ring@[k], n);
                    assert(k == replica_key(self.ring@[k], n));
                }
            }
            // completeness, when no collision has occurred
            if self.no_collisions@ {
                assert(pre.no_collisions@);
                assert(pre.ring_complete());
                assert forall|id2: Seq<char>, n: nat|
                    self.registry@.contains_key(id2) && n < self.replicas implies
                    self.ring@.contains_key(#[trigger] replica_key(id2, n)) && self.ring@[
                    replica_key(id2, n)] == id2 by {
                    if id2 == rid {
                        assert(self.ring@[replica_key(rid, n)] == rid);
                    } else {
                        assert(pre.registry@.contains_key(id2));
                        assert(pre.ring@.contains_key(replica_key(id2, n)));
                        assert(pre.ring@[replica_key(id2, n)] == id2);
                        assert(!(exists|j: nat|
                            j < pre.replicas && replica_key(id2, n) == replica_key(rid, j))) by {
                            if exists|j: nat|
                                j < pre.replicas && replica_key(id2, n) == replica_key(rid, j) {
                                let j = choose|j: nat|
                                    j < pre.replicas && replica_key(id2, n) == replica_key(rid, j);
                                assert(!pre.ring@.contains_key(replica_key(rid, j)));
                                assert(false);
                            }
                        }
                        assert(self.ring@[replica_key(id2, n)] == pre.ring@[replica_key(id2, n)]);
                    }
                }
                assert forall|id1: Seq<char>, n1: nat, id2: Seq<char>, n2: nat|
                    #![trigger replica_key(id1, n1), replica_key(id2, n2)]
                    self.registry@.contains_key(id1) && n1 < self.replicas
                        && self.registry@.contains_key(id2) && n2 < self.replicas && replica_key(
                        id1,
                        n1,
                    ) == replica_key(id2, n2) implies id1 == id2 && n1 == n2 by {
                    if id1 == rid && id2 == rid {
                        if n1 < n2 {
                            assert(replica_key(rid, n1) != replica_key(rid, n2));
                        }
                        if n2 < n1 {
                            assert(replica_key(rid, n2) != replica_key(rid, n1));
                        }
                    } else if id1 == rid {
                        assert(pre.ring@.contains_key(replica_key(id2, n2)));
                        assert(!pre.ring@.contains_key(replica_key(rid, n1)));
                        assert(false);
                    } else if id2 == rid {
                        assert(pre.ring@.contains_key(replica_key(id1, n1)));
                        assert(!pre.ring@.contains_key(replica_key(rid, n2)));
                        assert(false);
                    } else {
                        assert(pre.registry@.contains_key(id1));
                        assert(pre.registry@.contains_key(id2));
                    }
                }
                assert(self.ring.spec_len() == pre.ring.spec_len() + pre.replicas);
                assert(self.registry.spec_len() == pre.registry.spec_len() + 1);
                assert((pre.registry.spec_len() + 1) * pre.replicas as nat == pre.registry.spec_len()
                    * pre.replicas as nat + pre.replicas as nat) by (nonlinear_arith);
            }
            assert(self.wf());
        }
        if self.registry.records.len() > self.size_threshold {
            self.rebalance();
        }
    }

    /// Removes a resource. Removing an unregistered identifier is a no-op;
    /// otherwise the resource's cached replica keys name exactly the ring
    /// entries to delete, the cache entry is purged, and the resource is
    /// unregistered.
    pub fn remove(&mut self, resource: &R)
        requires
            old(self).wf(),
        ensures
            final(self).wf(),
            !old(self).resources().contains_key(resource.spec_id()) ==> *final(self) == *old(
                self,
            ),
            old(self).resources().contains_key(resource.spec_id()) ==> {
                &&& final(self).resources() == old(self).resources().remove(resource.spec_id())
                &&& final(self).resource_count_spec() == old(self).resource_count_spec() - 1
                &&& final(self).ring_map() == without_replica_keys(
                    old(self).ring_map(),
                    resource.spec_id(),
                    old(self).replicas as nat,
                )
                &&& final(self).replicas == old(self).replicas
                &&& final(self).size_threshold == old(self).size_threshold
                &&& final(self).replica_pad == old(self).replica_pad
                &&& final(self).size_pad == old(self).size_pad
                &&& final(self).no_collisions == old(self).no_collisions
                &&& (old(self).no_collisions@ ==> final(self).ring_len() + old(self).replicas
                    == old(self).ring_len())
            },
    {
        let ghost pre = *self;
        let id = resource.id();
        let idx_opt = self.registry.index_of(id);
        match idx_opt {
            None => {},
            Some(idx) => {
                let ghost rid = resource.spec_id();
                let count = self.replicas;
                let mut i: usize = 0;
                while i < count
                    invariant
                        pre.wf(),
                        self.registry == pre.registry,
                        self.replicas == pre.replicas,
                        self.size_threshold == pre.size_threshold,
                        self.replica_pad == pre.replica_pad,
                        self.size_pad == pre.size_pad,
                        self.no_collisions == pre.no_collisions,
                        count == pre.replicas,
                        idx < self.registry.records@.len(),
                        self.registry.records@[idx as int].id@ == rid,
                        i <= count,
                        self.ring.wf(),
                        self.ring@ == without_replica_keys(pre.ring@, rid, i as nat),
                        pre.no_collisions@ ==> self.ring.spec_len() + i == pre.ring.spec_len(),
                    decreases count - i,
                {
                    let k = copy_bytes(&self.registry.records[idx].keys[i]);
                    proof {
                        assert(k@ == replica_key(rid, i as nat));
                        lemma_without_replica_keys(pre.ring@, rid, i as nat);
                        if pre.no_collisions@ {
                            assert(pre.registry@.contains_key(rid)) by {
                                pre.registry.lemma_contains(rid);
                            }
                            assert(pre.ring@.contains_key(replica_key(rid, i as nat)));
                            assert(!(exists|j: nat|
                                j < i && replica_key(rid, i as nat) == replica_key(rid, j))) by {
                                if exists|j: nat|
                                    j < i && replica_key(rid, i as nat) == replica_key(rid, j) {
                                    let j = choose|j: nat|
                                        j < i && replica_key(rid, i as nat) == replica_key(rid, j);
                                    assert(false);
                                }
                            }
                            assert(self.ring@.contains_key(k@));
                        }
                    }
                    self.ring.remove(&k);
                    i = i + 1;
                }
                let rec = self.registry.remove_at(idx);
                proof {
                    assert(rec.id@ == rid);
                    lemma_without_replica_keys(pre.ring@, rid, pre.replicas as nat);
                    assert(pre.registry@.contains_key(rid)) by {
                        pre.registry.lemma_contains(rid);
                    }
                    // soundness: every remaining entry points at a remaining resource
                    assert forall|k: Seq<u8>| #[trigger] self.ring@.contains_key(k) implies
                        self.registry@.contains_key(self.ring@[k]) && (exists|n: nat|
                        n < self.replicas && k == replica_key(self.ring@[k], n)) by {
                        assert(pre.ring@.contains_key(k));
                        assert(self.ring@[k] == pre.ring@[k]);
                        let v = pre.ring@[k];
                        let n = choose|n: nat| n < pre.replicas && k == replica_key(v, n);
                        if v == rid {
                            assert(exists|j: nat|
                                j < pre.replicas && k == replica_key(rid, j));
                            assert(false);
                        }
                        assert(self.registry@.contains_key(v));
                        assert(k == replica_key(self.ring@[k], n));
                    }
                    // completeness, when no collision has occurred
                    if self.no_collisions@ {
                        assert(pre.ring_complete());
                        assert forall|id2: Seq<char>, n: nat|
                            self.registry@.contains_key(id2) && n < self.replicas implies
                            self.ring@.contains_key(#[trigger] replica_key(id2, n)) && self.ring@[
                        replica_key(id2, n)] == id2 by {
                            assert(pre.registry@.contains_key(id2));
                            assert(id2 != rid);
                            assert(pre.ring@.contains_key(replica_key(id2, n)));
                            assert(!(exists|j: nat|
                                j < pre.replicas && replica_key(id2, n) == replica_key(rid, j)))
                                by {
                                if exists|j: nat|
                                    j < pre.replicas && replica_key(id2, n) == replica_key(
                                        rid,
                                        j,
                                    ) {
                                    let j = choose|j: nat|
                                        j < pre.replicas && replica_key(id2, n) == replica_key(
                                            rid,
                                            j,
                                        );
                                    assert(false);
                                }
                            }
                            assert(self.ring@.contains_key(replica_key(id2, n)));
                        }
                        assert((pre.registry.spec_len() - 1) * pre.replicas as nat
                            == pre.registry.spec_len() * pre.replicas as nat - pre.replicas as nat)
                            by (nonlinear_arith);
                        assert(self.ring.spec_len() == self.registry.spec_len() * self.replicas);
                    }
                    assert(self.wf());
                }
            },
        }
    }
}

impl<R> Default for LightCycle<R> {
    /// The default ring: four replicas per resource, no self-rebalancing.
    fn default() -> (r: Self)
        ensures
            r.wf(),
            r.replicas == 4,
            r.size_threshold == usize::MAX,
            r.replica_pad == 0,
            r.size_pad == 0,
            r.resources() == Map::<Seq<char>, R>::empty(),
            r.ring_map() == Map::<Seq<u8>, Seq<char>>::empty(),
            r.no_collisions@,
    {
        Self::new_with_replica_count(4)
    }
}


} // verus!
