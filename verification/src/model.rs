//! How the ring index's map evolves when a resource's replica entries are
//! added or taken out, and what a full rebuild produces.

use vstd::prelude::*;
use crate::hashing::replica_key;

verus! {

/// Saturating addition on the machine-word range.
pub open spec fn sat_add(a: nat, b: nat) -> nat {
    if a + b > usize::MAX as nat {
        usize::MAX as nat
    } else {
        a + b
    }
}

/// Computes `sat_add` on machine words.
pub fn sat_add_usize(a: usize, b: usize) -> (r: usize)
    ensures
        r as nat == sat_add(a as nat, b as nat),
{
    if a <= usize::MAX - b {
        a + b
    } else {
        usize::MAX
    }
}

/// The ring map after inserting the first `n` replica entries of `id`.
pub open spec fn with_replica_keys(m: Map<Seq<u8>, Seq<char>>, id: Seq<char>, n: nat) -> Map<
    Seq<u8>,
    Seq<char>,
>
    decreases n,
{
    if n == 0 {
        m
    } else {
        with_replica_keys(m, id, (n - 1) as nat).insert(replica_key(id, (n - 1) as nat), id)
    }
}

/// The ring map after removing the first `n` replica entries of `id`.
pub open spec fn without_replica_keys(m: Map<Seq<u8>, Seq<char>>, id: Seq<char>, n: nat) -> Map<
    Seq<u8>,
    Seq<char>,
>
    decreases n,
{
    if n == 0 {
        m
    } else {
        without_replica_keys(m, id, (n - 1) as nat).remove(replica_key(id, (n - 1) as nat))
    }
}

/// The ring map built from scratch for the given identifiers, in order, at
/// `n` replicas each.
pub open spec fn rebuilt_ring(ids: Seq<Seq<char>>, n: nat) -> Map<Seq<u8>, Seq<char>>
    decreases ids.len(),
{
    if ids.len() == 0 {
        Map::empty()
    } else {
        with_replica_keys(rebuilt_ring(ids.drop_last(), n), ids.last(), n)
    }
}

pub proof fn lemma_with_replica_keys(m: Map<Seq<u8>, Seq<char>>, id: Seq<char>, n: nat)
    ensures
        forall|k: Seq<u8>|
            #[trigger] with_replica_keys(m, id, n).contains_key(k) <==> (m.contains_key(k)
                || exists|j: nat| j < n && k == replica_key(id, j)),
        forall|j: nat| j < n ==> with_replica_keys(m, id, n)[#[trigger] replica_key(id, j)] == id,
        forall|k: Seq<u8>|
            #[trigger] m.contains_key(k) && !(exists|j: nat| j < n && k == replica_key(id, j))
                ==> with_replica_keys(m, id, n)[k] == m[k],
    decreases n,
{
    if n > 0 {
        lemma_with_replica_keys(m, id, (n - 1) as nat);
        let prev = with_replica_keys(m, id, (n - 1) as nat);
        let cur = with_replica_keys(m, id, n);
        assert forall|k: Seq<u8>| #[trigger] cur.contains_key(k) implies (m.contains_key(k)
            || (exists|j: nat| j < n && k == replica_key(id, j))) by {
            if k == replica_key(id, (n - 1) as nat) {
                assert(((n - 1) as nat) < n && k == replica_key(id, (n - 1) as nat));
            } else {
                assert(prev.contains_key(k));
                if !m.contains_key(k) {
                    let j = choose|j: nat| j < (n - 1) as nat && k == replica_key(id, j);
                    assert(j < n && k == replica_key(id, j));
                }
            }
        }
        assert forall|k: Seq<u8>|
            m.contains_key(k) || (exists|j: nat| j < n && k == replica_key(id, j)) implies
            #[trigger] cur.contains_key(k) by {
            if m.contains_key(k) {
                assert(prev.contains_key(k));
            } else {
                let j = choose|j: nat| j < n && k == replica_key(id, j);
                if j < (n - 1) as nat {
                    assert(prev.contains_key(k));
                }
            }
        }
        assert forall|j: nat| j < n implies cur[#[trigger] replica_key(id, j)] == id by {
            if j < (n - 1) as nat && replica_key(id, j) != replica_key(id, (n - 1) as nat) {
                assert(prev[replica_key(id, j)] == id);
            }
        }
        assert forall|k: Seq<u8>|
            #[trigger] m.contains_key(k) && !(exists|j: nat| j < n && k == replica_key(id, j))
                implies cur[k] == m[k] by {
            assert(!(exists|j: nat| j < (n - 1) as nat && k == replica_key(id, j)));
            assert(prev[k] == m[k]);
            assert(k != replica_key(id, (n - 1) as nat));
        }
    }
}

pub proof fn lemma_without_replica_keys(m: Map<Seq<u8>, Seq<char>>, id: Seq<char>, n: nat)
    ensures
        forall|k: Seq<u8>|
            #[trigger] without_replica_keys(m, id, n).contains_key(k) <==> (m.contains_key(k)
                && !(exists|j: nat| j < n && k == replica_key(id, j))),
        forall|k: Seq<u8>|
            #[trigger] without_replica_keys(m, id, n).contains_key(k)
                ==> without_replica_keys(m, id, n)[k] == m[k],
    decreases n,
{
    if n > 0 {
        lemma_without_replica_keys(m, id, (n - 1) as nat);
        let prev = without_replica_keys(m, id, (n - 1) as nat);
        let cur = without_replica_keys(m, id, n);
        assert forall|k: Seq<u8>| #[trigger] cur.contains_key(k) implies (m.contains_key(k) && !(
        exists|j: nat| j < n && k == replica_key(id, j))) by {
            assert(prev.contains_key(k));
            if exists|j: nat| j < n && k == replica_key(id, j) {
                let j = choose|j: nat| j < n && k == replica_key(id, j);
                assert(j < (n - 1) as nat || j == (n - 1) as nat);
                assert(false);
            }
        }
        assert forall|k: Seq<u8>|
            m.contains_key(k) && !(exists|j: nat| j < n && k == replica_key(id, j)) implies
            #[trigger] cur.contains_key(k) by {
            assert(!(exists|j: nat| j < (n - 1) as nat && k == replica_key(id, j)));
            assert(prev.contains_key(k));
            assert(k != replica_key(id, (n - 1) as nat));
        }
    }
}

pub proof fn lemma_rebuilt_ring(ids: Seq<Seq<char>>, n: nat)
    ensures
        forall|k: Seq<u8>|
            #[trigger] rebuilt_ring(ids, n).contains_key(k) <==> exists|i: int, j: nat|
                0 <= i < ids.len() && j < n && k == replica_key(ids[i], j),
        forall|k: Seq<u8>|
            #[trigger] rebuilt_ring(ids, n).contains_key(k) ==> exists|i: int, j: nat|
                0 <= i < ids.len() && j < n && k == replica_key(ids[i], j) && rebuilt_ring(ids, n)[k]
                    == ids[i],
    decreases ids.len(),
{
    if ids.len() > 0 {
        let l = ids.len() - 1;
        lemma_rebuilt_ring(ids.drop_last(), n);
        let prev = rebuilt_ring(ids.drop_last(), n);
        let cur = rebuilt_ring(ids, n);
        lemma_with_replica_keys(prev, ids.last(), n);
        assert forall|k: Seq<u8>| #[trigger] cur.contains_key(k) implies (exists|i: int, j: nat|
            0 <= i < ids.len() && j < n && k == replica_key(ids[i], j)) by {
            if prev.contains_key(k) {
                let (i, j): (int, nat) = choose|i: int, j: nat|
                    0 <= i < ids.drop_last().len() && j < n && k == replica_key(
                        ids.drop_last()[i],
                        j,
                    );
                assert(ids.drop_last()[i] == ids[i]);
                assert(0 <= i < ids.len() && j < n && k == replica_key(ids[i], j));
            } else {
                let j = choose|j: nat| j < n && k == replica_key(ids.last(), j);
                assert(ids[l] == ids.last());
                assert(0 <= l < ids.len() && j < n && k == replica_key(ids[l], j));
            }
        }
        assert forall|k: Seq<u8>|
            (exists|i: int, j: nat| 0 <= i < ids.len() && j < n && k == replica_key(ids[i], j))
                implies #[trigger] cur.contains_key(k) by {
            let (i, j): (int, nat) = choose|i: int, j: nat|
                0 <= i < ids.len() && j < n && k == replica_key(ids[i], j);
            if i < l {
                assert(ids.drop_last()[i] == ids[i]);
                assert(prev.contains_key(k));
            } else {
                assert(ids[i] == ids.last());
            }
        }
        assert forall|k: Seq<u8>| #[trigger] cur.contains_key(k) implies (exists|i: int, j: nat|
            0 <= i < ids.len() && j < n && k == replica_key(ids[i], j) && cur[k] == ids[i]) by {
            if exists|j: nat| j < n && k == replica_key(ids.last(), j) {
                let j = choose|j: nat| j < n && k == replica_key(ids.last(), j);
                assert(cur[replica_key(ids.last(), j)] == ids.last());
                assert(ids[l] == ids.last());
                assert(0 <= l < ids.len() && j < n && k == replica_key(ids[l], j) && cur[k]
                    == ids[l]);
            } else {
                assert(prev.contains_key(k));
                let (i, j): (int, nat) = choose|i: int, j: nat|
                    0 <= i < ids.drop_last().len() && j < n && k == replica_key(ids.drop_last()[i], j)
                        && prev[k] == ids.drop_last()[i];
                assert(ids.drop_last()[i] == ids[i]);
                assert(cur[k] == prev[k]);
                assert(0 <= i < ids.len() && j < n && k == replica_key(ids[i], j) && cur[k]
                    == ids[i]);
            }
        }
    }
}

} // verus!
