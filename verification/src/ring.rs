//! The ring index: an ordered mapping from replica key to resource
//! identifier, kept as a vector sorted strictly by key. Lookups resolve to
//! the nearest key at or after the query key, wrapping around to the smallest
//! key at the end of the key space.

use vstd::prelude::*;
use crate::assoc::{assoc_map, unique_keys, lemma_assoc_map_contains, lemma_assoc_map_value,
    lemma_assoc_map_insert_at, lemma_assoc_map_remove_at, lemma_assoc_map_len};
use crate::order::{key_le, lex_le, lex_lt, lemma_lex_le_refl, lemma_lex_le_antisym,
    lemma_lex_le_lt_trans, lemma_lex_not_le};

verus! {

/// Some key of `m` lies at or after `q`.
pub open spec fn has_key_geq(m: Map<Seq<u8>, Seq<char>>, q: Seq<u8>) -> bool {
    exists|k: Seq<u8>| #[trigger] m.contains_key(k) && lex_le(q, k)
}

/// `k` is the key of `m` that owns the query key `q`: the smallest key at or
/// after `q`, or, when no key lies there, the smallest key of `m` altogether
/// (the wraparound rule that closes the ring).
pub open spec fn owner_key(m: Map<Seq<u8>, Seq<char>>, q: Seq<u8>, k: Seq<u8>) -> bool {
    &&& m.contains_key(k)
    &&& if has_key_geq(m, q) {
        lex_le(q, k) && forall|k2: Seq<u8>| #[trigger] m.contains_key(k2) && lex_le(q, k2)
            ==> lex_le(k, k2)
    } else {
        forall|k2: Seq<u8>| #[trigger] m.contains_key(k2) ==> lex_le(k, k2)
    }
}

/// A query key has at most one owner.
pub proof fn lemma_owner_key_unique(m: Map<Seq<u8>, Seq<char>>, q: Seq<u8>, k1: Seq<u8>, k2: Seq<u8>)
    requires
        owner_key(m, q, k1),
        owner_key(m, q, k2),
    ensures
        k1 == k2,
{
    lemma_lex_le_antisym(k1, k2);
}

/// Copies a byte key.
pub fn copy_bytes(v: &Vec<u8>) -> (r: Vec<u8>)
    ensures
        r@ == v@,
{
    let mut r: Vec<u8> = Vec::new();
    let mut i: usize = 0;
    while i < v.len()
        invariant
            i <= v@.len(),
            r@ =~= v@.subrange(0, i as int),
        decreases v@.len() - i,
    {
        r.push(v[i]);
        i = i + 1;
    }
    proof {
        assert(r@ =~= v@);
    }
    r
}

pub struct RingIndex {
    pub entries: Vec<(Vec<u8>, String)>,
}

impl View for RingIndex {
    type V = Map<Seq<u8>, Seq<char>>;

    open spec fn view(&self) -> Map<Seq<u8>, Seq<char>> {
        assoc_map(self.pairs())
    }
}

impl RingIndex {
    /// The entries as mathematical key-value pairs, in stored order.
    pub open spec fn pairs(self) -> Seq<(Seq<u8>, Seq<char>)> {
        self.entries@.map(|i: int, e: (Vec<u8>, String)| (e.0@, e.1@))
    }

    pub open spec fn spec_len(self) -> nat {
        self.entries@.len()
    }

    /// Entries are sorted strictly ascending by key.
    pub open spec fn wf(self) -> bool {
        forall|i: int, j: int| 0 <= i < j < self.entries@.len()
            ==> lex_lt(#[trigger] self.entries@[i].0@, #[trigger] self.entries@[j].0@)
    }

    pub proof fn lemma_unique(self)
        requires
            self.wf(),
        ensures
            unique_keys(self.pairs()),
    {
    }

    /// The number of entries equals the size of the map's domain.
    pub proof fn lemma_len(self)
        requires
            self.wf(),
        ensures
            self@.dom().finite(),
            self@.dom().len() == self.spec_len(),
    {
        self.lemma_unique();
        lemma_assoc_map_len(self.pairs());
    }

    pub fn new() -> (r: Self)
        ensures
            r.wf(),
            r@ == Map::<Seq<u8>, Seq<char>>::empty(),
            r.spec_len() == 0,
    {
        let r = RingIndex { entries: Vec::new() };
        proof {
            assert(r.pairs().len() == 0);
        }
        r
    }

    pub fn len(&self) -> (r: usize)
        requires
            self.wf(),
        ensures
            r == self.spec_len(),
            r == self@.dom().len(),
    {
        proof {
            self.lemma_len();
        }
        self.entries.len()
    }

    /// Inserts an entry, overwriting the entry of an equal key; reports
    /// whether the key was new.
    pub fn insert(&mut self, key: Vec<u8>, id: String) -> (fresh: bool)
        requires
            old(self).wf(),
        ensures
            final(self).wf(),
            final(self)@ == old(self)@.insert(key@, id@),
            fresh == !old(self)@.contains_key(key@),
            final(self).spec_len() == old(self).spec_len() + (if fresh {
                1int
            } else {
                0int
            }),
    {
        let ghost pre = *self;
        let mut p: usize = 0;
        loop
            invariant
                *self == pre,
                pre.wf(),
                p <= self.entries@.len(),
                forall|m: int| 0 <= m < p ==> !lex_le(key@, #[trigger] pre.entries@[m].0@),
            ensures
                *self == pre,
                p <= self.entries@.len(),
                forall|m: int| 0 <= m < p ==> !lex_le(key@, #[trigger] pre.entries@[m].0@),
                p < self.entries@.len() ==> lex_le(key@, pre.entries@[p as int].0@),
            decreases self.entries@.len() - p,
        {
            if p == self.entries.len() {
                break;
            }
            if key_le(&key, &self.entries[p].0) {
                break;
            }
            p = p + 1;
        }
        proof {
            self.lemma_unique();
            assert(forall|m: int| 0 <= m < p ==> lex_lt(#[trigger] pre.entries@[m].0@, key@)) by {
                assert forall|m: int| 0 <= m < p implies lex_lt(#[trigger] pre.entries@[m].0@, key@)
                    by {
                    lemma_lex_not_le(key@, pre.entries@[m].0@);
                }
            }
        }
        if p < self.entries.len() && key_le(&self.entries[p].0, &key) {
            proof {
                lemma_lex_le_antisym(pre.entries@[p as int].0@, key@);
                assert(pre.entries@[p as int].0@ == key@);
                assert(pre.pairs()[p as int].0 == key@);
                lemma_assoc_map_contains(pre.pairs(), key@);
                lemma_assoc_map_remove_at(pre.pairs(), p as int);
            }
            let ghost mid_pairs = pre.pairs().remove(p as int);
            self.entries.remove(p);
            proof {
                assert(self.pairs() =~= mid_pairs);
                assert forall|j: int| 0 <= j < mid_pairs.len() implies mid_pairs[j].0 != key@ by {
                    if j < p {
                        assert(mid_pairs[j] == pre.pairs()[j]);
                    } else {
                        assert(mid_pairs[j] == pre.pairs()[j + 1]);
                    }
                }
                lemma_assoc_map_insert_at(mid_pairs, p as int, (key@, id@));
            }
            self.entries.insert(p, (key, id));
            proof {
                assert(self.pairs() =~= mid_pairs.insert(p as int, (key@, id@)));
                assert(self@ =~= pre@.insert(key@, id@));
                assert forall|i: int, j: int| 0 <= i < j < self.entries@.len() implies lex_lt(
                    #[trigger] self.entries@[i].0@,
                    #[trigger] self.entries@[j].0@,
                ) by {
                    assert(self.entries@[i].0@ == pre.entries@[i].0@);
                    assert(self.entries@[j].0@ == pre.entries@[j].0@);
                }
            }
            false
        } else {
            proof {
                // the key is new: every entry is strictly below p's or strictly above
                assert forall|m: int| 0 <= m < pre.pairs().len() implies pre.pairs()[m].0 != key@
                    by {
                    if m >= p {
                        if m == p {
                            if pre.entries@[m].0@ == key@ {
                                lemma_lex_le_refl(key@);
                            }
                        } else {
                            assert(lex_lt(pre.entries@[p as int].0@, pre.entries@[m].0@));
                            if pre.entries@[m].0@ == key@ {
                                lemma_lex_le_refl(key@);
                                lemma_lex_le_lt_trans(
                                    key@,
                                    pre.entries@[p as int].0@,
                                    pre.entries@[m].0@,
                                );
                            }
                        }
                    }
                }
                lemma_assoc_map_contains(pre.pairs(), key@);
                lemma_assoc_map_insert_at(pre.pairs(), p as int, (key@, id@));
            }
            self.entries.insert(p, (key, id));
            proof {
                assert(self.pairs() =~= pre.pairs().insert(p as int, (key@, id@)));
                assert(self@ =~= pre@.insert(key@, id@));
                assert forall|i: int, j: int| 0 <= i < j < self.entries@.len() implies lex_lt(
                    #[trigger] self.entries@[i].0@,
                    #[trigger] self.entries@[j].0@,
                ) by {
                    let pi = if i < p { pre.entries@[i].0@ } else { pre.entries@[i - 1].0@ };
                    let pj = if j < p { pre.entries@[j].0@ } else { pre.entries@[j - 1].0@ };
                    if i == p {
                        // self.entries[i] holds the new key, strictly below entry j
                        assert(j > p);
                        if j - 1 == p as int {
                            assert(self.entries@[j].0@ == pre.entries@[p as int].0@);
                            assert(lex_le(key@, pre.entries@[p as int].0@));
                            if key@ == pre.entries@[p as int].0@ {
                                lemma_lex_le_refl(key@);
                            }
                        } else {
                            assert(self.entries@[j].0@ == pre.entries@[j - 1].0@);
                            assert(lex_lt(pre.entries@[p as int].0@, pre.entries@[j - 1].0@));
                            assert(lex_le(key@, pre.entries@[p as int].0@));
                            lemma_lex_le_lt_trans(
                                key@,
                                pre.entries@[p as int].0@,
                                pre.entries@[j - 1].0@,
                            );
                        }
                    } else if j == p {
                        assert(i < p);
                        assert(self.entries@[i].0@ == pre.entries@[i].0@);
                        assert(lex_lt(pre.entries@[i].0@, key@));
                    } else {
                        if i < p && j < p {
                            assert(lex_lt(pre.entries@[i].0@, pre.entries@[j].0@));
                        } else if i < p && j > p {
                            assert(self.entries@[j].0@ == pre.entries@[j - 1].0@);
                            // i < p <= j - 1, so the entries at i and j - 1 differ
                            assert(lex_lt(pre.entries@[i].0@, pre.entries@[j - 1].0@));
                        } else {
                            assert(i > p && j > p);
                            assert(lex_lt(pre.entries@[i - 1].0@, pre.entries@[j - 1].0@));
                        }
                    }
                }
            }
            true
        }
    }

    /// Removes the entry of `key`, if one is present.
    pub fn remove(&mut self, key: &Vec<u8>)
        requires
            old(self).wf(),
        ensures
            final(self).wf(),
            final(self)@ == old(self)@.remove(key@),
            final(self).spec_len() == old(self).spec_len() - (if old(self)@.contains_key(key@) {
                1int
            } else {
                0int
            }),
    {
        let ghost pre = *self;
        let mut j: usize = 0;
        let mut found = false;
        loop
            invariant_except_break
                !found,
            invariant
                *self == pre,
                pre.wf(),
                j <= self.entries@.len(),
                forall|m: int| 0 <= m < j ==> #[trigger] pre.entries@[m].0@ != key@,
            ensures
                *self == pre,
                j <= self.entries@.len(),
                found ==> j < self.entries@.len() && pre.entries@[j as int].0@ == key@,
                !found ==> forall|m: int|
                    0 <= m < self.entries@.len() ==> #[trigger] pre.entries@[m].0@ != key@,
            decreases self.entries@.len() - j,
        {
            if j == self.entries.len() {
                break;
            }
            let le1 = key_le(&self.entries[j].0, key);
            let le2 = key_le(key, &self.entries[j].0);
            if le1 && le2 {
                proof {
                    lemma_lex_le_antisym(pre.entries@[j as int].0@, key@);
                }
                found = true;
                break;
            }
            proof {
                if pre.entries@[j as int].0@ == key@ {
                    lemma_lex_le_refl(key@);
                }
            }
            j = j + 1;
        }
        if found {
            proof {
                assert(pre.pairs()[j as int].0 == key@);
                self.lemma_unique();
                lemma_assoc_map_value(pre.pairs(), j as int);
                lemma_assoc_map_remove_at(pre.pairs(), j as int);
            }
            self.entries.remove(j);
            proof {
                assert(self.pairs() =~= pre.pairs().remove(j as int));
                assert forall|a: int, b: int| 0 <= a < b < self.entries@.len() implies lex_lt(
                    #[trigger] self.entries@[a].0@,
                    #[trigger] self.entries@[b].0@,
                ) by {
                    let pa = if a < j { a } else { a + 1 };
                    let pb = if b < j { b } else { b + 1 };
                    assert(self.entries@[a].0@ == pre.entries@[pa].0@);
                    assert(self.entries@[b].0@ == pre.entries@[pb].0@);
                }
                assert(pre@.contains_key(key@));
                assert(self@ == pre@.remove(key@));
            }
        } else {
            proof {
                lemma_assoc_map_contains(pre.pairs(), key@);
                assert(!pre@.contains_key(key@));
                assert(pre@.remove(key@) =~= pre@);
            }
        }
    }

    /// The stored identifier that owns the query key `q`.
    pub fn successor(&self, q: &Vec<u8>) -> (r: Option<&String>)
        requires
            self.wf(),
        ensures
            r is None <==> self.spec_len() == 0,
            self.spec_len() == 0 ==> self@ == Map::<Seq<u8>, Seq<char>>::empty(),
            match r {
                None => true,
                Some(id) => exists|k: Seq<u8>|
                    #[trigger] owner_key(self@, q@, k) && self@[k] == id@,
            },
    {
        proof {
            self.lemma_unique();
        }
        let mut i: usize = 0;
        while i < self.entries.len()
            invariant
                self.wf(),
                unique_keys(self.pairs()),
                i <= self.entries@.len(),
                forall|m: int| 0 <= m < i ==> !lex_le(q@, #[trigger] self.entries@[m].0@),
            decreases self.entries@.len() - i,
        {
            if key_le(q, &self.entries[i].0) {
                let ghost k = self.entries@[i as int].0@;
                proof {
                    lemma_assoc_map_value(self.pairs(), i as int);
                    assert(self@.contains_key(k) && lex_le(q@, k));
                    assert(has_key_geq(self@, q@));
                    assert forall|k2: Seq<u8>| #[trigger] self@.contains_key(k2) && lex_le(q@, k2)
                        implies lex_le(k, k2) by {
                        lemma_assoc_map_contains(self.pairs(), k2);
                        let m = choose|m: int|
                            0 <= m < self.pairs().len() && self.pairs()[m].0 == k2;
                        assert(self.entries@[m].0@ == k2);
                        if m < i {
                            assert(false);
                        } else if m == i {
                            lemma_lex_le_refl(k);
                        } else {
                            assert(lex_lt(k, k2));
                        }
                    }
                    assert(owner_key(self@, q@, k));
                    assert(self@[k] == self.pairs()[i as int].1);
                }
                return Some(&self.entries[i].1);
            }
            i = i + 1;
        }
        if self.entries.len() > 0 {
            let ghost k = self.entries@[0].0@;
            proof {
                assert(!has_key_geq(self@, q@)) by {
                    if has_key_geq(self@, q@) {
                        let k2 = choose|k2: Seq<u8>| #[trigger] self@.contains_key(k2)
                            && lex_le(q@, k2);
                        lemma_assoc_map_contains(self.pairs(), k2);
                        let m = choose|m: int|
                            0 <= m < self.pairs().len() && self.pairs()[m].0 == k2;
                        assert(self.entries@[m].0@ == k2);
                        assert(false);
                    }
                }
                lemma_assoc_map_value(self.pairs(), 0);
                assert forall|k2: Seq<u8>| #[trigger] self@.contains_key(k2) implies lex_le(k, k2)
                    by {
                    lemma_assoc_map_contains(self.pairs(), k2);
                    let m = choose|m: int| 0 <= m < self.pairs().len() && self.pairs()[m].0 == k2;
                    assert(self.entries@[m].0@ == k2);
                    if m == 0 {
                        lemma_lex_le_refl(k);
                    } else {
                        assert(lex_lt(k, k2));
                    }
                }
                assert(owner_key(self@, q@, k));
                assert(self@[k] == self.pairs()[0].1);
            }
            return Some(&self.entries[0].1);
        }
        proof {
            assert(self.pairs().len() == 0);
        }
        None
    }
}

} // verus!
