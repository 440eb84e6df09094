//! The ring's governing laws, stated over the controller's mathematical
//! model and proved once and for all.

use vstd::prelude::*;
use crate::LightCycle;
use crate::hashing::replica_key;
use crate::model::{with_replica_keys, lemma_with_replica_keys};
use crate::order::{lex_le, lemma_lex_le_refl, lemma_lex_not_le};
use crate::ring::owner_key;

verus! {

/// Determinism of a single lookup: for a fixed ring state, two rings with
/// the same ring index and the same resources resolve every lookup key the
/// same way, because a query key has exactly one owner. (The uniqueness
/// itself is `lemma_owner_key_unique`.)
///
/// Determinism across insertion orders: two well-formed rings holding the
/// same resource identifiers at the same replica count have identical ring
/// indexes, whatever order their resources were added in — provided no hash
/// collision has occurred in either.
pub proof fn lemma_ring_determined_by_resources<R, S>(a: LightCycle<R>, b: LightCycle<S>)
    requires
        a.wf(),
        b.wf(),
        a.no_collisions@,
        b.no_collisions@,
        a.replicas == b.replicas,
        a.resources().dom() == b.resources().dom(),
    ensures
        a.ring_map() == b.ring_map(),
{
    assert forall|k: Seq<u8>| #[trigger] a.ring@.contains_key(k) implies b.ring@.contains_key(k)
        && b.ring@[k] == a.ring@[k] by {
        let v = a.ring@[k];
        let n = choose|n: nat| n < a.replicas && k == replica_key(v, n);
        assert(a.resources().dom().contains(v));
        assert(b.resources().contains_key(v));
        assert(b.ring@.contains_key(replica_key(v, n)));
        assert(b.ring@[replica_key(v, n)] == v);
    }
    assert forall|k: Seq<u8>| #[trigger] b.ring@.contains_key(k) implies a.ring@.contains_key(k)
        by {
        let v = b.ring@[k];
        let n = choose|n: nat| n < b.replicas && k == replica_key(v, n);
        assert(b.resources().dom().contains(v));
        assert(a.resources().contains_key(v));
        assert(a.ring@.contains_key(replica_key(v, n)));
    }
    assert(a.ring@ =~= b.ring@);
}

/// `k` lies on the clockwise arc that begins at the query key `q` and ends
/// at the key `end`, inclusive: exactly the positions whose occupation could
/// take the query key away from `end`.
pub open spec fn in_arc(q: Seq<u8>, end: Seq<u8>, k: Seq<u8>) -> bool {
    if lex_le(q, end) {
        lex_le(q, k) && lex_le(k, end)
    } else {
        lex_le(q, k) || lex_le(k, end)
    }
}

/// Stability under unrelated changes: when the replica keys of a newly added
/// resource all fall outside the arc from a lookup key `q` to its owning key
/// `ky`, the lookup still resolves through `ky`, to the same identifier as
/// before.
pub proof fn lemma_untouched_resolution_stable(
    m: Map<Seq<u8>, Seq<char>>,
    id: Seq<char>,
    n: nat,
    q: Seq<u8>,
    ky: Seq<u8>,
)
    requires
        owner_key(m, q, ky),
        forall|j: nat| j < n ==> !in_arc(q, ky, #[trigger] replica_key(id, j)),
    ensures
        owner_key(with_replica_keys(m, id, n), q, ky),
        with_replica_keys(m, id, n)[ky] == m[ky],
{
    lemma_with_replica_keys(m, id, n);
    let m2 = with_replica_keys(m, id, n);
    lemma_lex_le_refl(ky);
    // the owning key is inside its own arc, so it is not among the new keys
    assert(!(exists|j: nat| j < n && ky == replica_key(id, j))) by {
        if exists|j: nat| j < n && ky == replica_key(id, j) {
            let j = choose|j: nat| j < n && ky == replica_key(id, j);
            assert(in_arc(q, ky, ky));
            assert(false);
        }
    }
    assert(m2.contains_key(ky));
    assert(m2[ky] == m[ky]);
    if exists|k2: Seq<u8>| #[trigger] m.contains_key(k2) && lex_le(q, k2) {
        // q had a key at or after it, and `ky` was the nearest; every new
        // key at or after q lies strictly beyond `ky`
        assert(lex_le(q, ky));
        assert forall|k2: Seq<u8>| #[trigger] m2.contains_key(k2) && lex_le(q, k2) implies lex_le(
            ky,
            k2,
        ) by {
            if m.contains_key(k2) {
            } else {
                let j = choose|j: nat| j < n && k2 == replica_key(id, j);
                assert(!in_arc(q, ky, k2));
                assert(!lex_le(k2, ky));
                lemma_lex_not_le(k2, ky);
            }
        }
        assert(owner_key(m2, q, ky));
    } else {
        // wraparound: nothing lay at or after q, and the new keys do not
        // either, so the smallest key overall still owns q
        assert forall|k2: Seq<u8>| #[trigger] m2.contains_key(k2) implies !lex_le(q, k2) && lex_le(
            ky,
            k2,
        ) by {
            if m.contains_key(k2) {
                assert(!lex_le(q, k2));
                assert(lex_le(ky, k2));
            } else {
                let j = choose|j: nat| j < n && k2 == replica_key(id, j);
                assert(!in_arc(q, ky, k2));
                assert(!lex_le(q, k2) && !lex_le(k2, ky));
                lemma_lex_not_le(k2, ky);
            }
        }
        assert(!(exists|k2: Seq<u8>| #[trigger] m2.contains_key(k2) && lex_le(q, k2)));
        assert(owner_key(m2, q, ky));
    }
}

/// Clean removal, second half: a ring entry never names an unregistered
/// resource, so once a resource is removed no lookup key resolves to it.
pub proof fn lemma_unregistered_never_resolves<R>(c: LightCycle<R>, id: Seq<char>)
    requires
        c.wf(),
        !c.resources().contains_key(id),
    ensures
        forall|k: Seq<u8>| #[trigger] c.ring_map().contains_key(k) ==> c.ring_map()[k] != id,
{
}

/// Wraparound correctness: with a single registered resource, every lookup
/// key is owned by that resource's entries, whether the query key falls
/// below, among, or above them.
pub proof fn lemma_single_resource_owns_all<R>(
    c: LightCycle<R>,
    id: Seq<char>,
    q: Seq<u8>,
    k: Seq<u8>,
)
    requires
        c.wf(),
        c.resources().dom() == set![id],
        owner_key(c.ring_map(), q, k),
    ensures
        c.ring_map()[k] == id,
{
    assert(c.ring@.contains_key(k));
    assert(c.resources().contains_key(c.ring@[k]));
    assert(c.resources().dom().contains(c.ring@[k]));
}

} // verus!
