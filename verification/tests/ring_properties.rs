use lightcycle::{HasId, LightCycle, NamedResource};

fn named(name: &str) -> NamedResource {
    NamedResource { name: String::from(name) }
}

fn sample_queries() -> Vec<String> {
    let mut queries = Vec::new();
    for i in 0..40 {
        queries.push(format!("query-{}", i));
    }
    queries
}

fn located_id(ring: &LightCycle<NamedResource>, query: &str) -> Option<String> {
    ring.locate(query).map(|r| r.id().to_string())
}

#[test]
fn empty_ring_locates_nothing() {
    let ring: LightCycle<NamedResource> = LightCycle::new_with_replica_count(4);
    assert!(ring.locate("anything").is_none());
    assert_eq!(ring.len(), 0);
    assert_eq!(ring.resource_count(), 0);
}

#[test]
fn default_ring_has_four_replicas() {
    let mut ring: LightCycle<NamedResource> = LightCycle::default();
    ring.add(named("solo"));
    assert_eq!(ring.len(), 4);
    assert_eq!(ring.resource_count(), 1);
}

#[test]
fn determinism_across_insertion_orders() {
    let names = ["alpha", "beta", "gamma", "delta", "epsilon"];
    let mut forward: LightCycle<NamedResource> = LightCycle::new_with_replica_count(3);
    for n in names.iter() {
        forward.add(named(n));
    }
    let mut backward: LightCycle<NamedResource> = LightCycle::new_with_replica_count(3);
    for n in names.iter().rev() {
        backward.add(named(n));
    }
    assert_eq!(forward.len(), backward.len());
    assert_eq!(forward.resource_count(), backward.resource_count());
    for q in sample_queries() {
        assert_eq!(
            located_id(&forward, &q),
            located_id(&backward, &q),
            "lookups must not depend on insertion order"
        );
        // repeated calls agree with themselves
        assert_eq!(located_id(&forward, &q), located_id(&forward, &q));
    }
}

#[test]
fn stability_under_unrelated_changes() {
    let mut before: LightCycle<NamedResource> = LightCycle::new_with_replica_count(3);
    before.add(named("alpha"));
    before.add(named("beta"));

    let mut after: LightCycle<NamedResource> = LightCycle::new_with_replica_count(3);
    after.add(named("alpha"));
    after.add(named("beta"));
    after.add(named("gamma"));

    let mut moved = 0;
    for q in sample_queries() {
        let new_owner = located_id(&after, &q).unwrap();
        if new_owner == "gamma" {
            moved += 1;
        } else {
            // a key not stolen by the newcomer keeps its old owner
            assert_eq!(Some(new_owner), located_id(&before, &q));
        }
    }
    // the newcomer takes some keys, but not the whole space
    assert!(moved < sample_queries().len());
}

#[test]
fn wraparound_single_resource() {
    let mut ring: LightCycle<NamedResource> = LightCycle::new_with_replica_count(2);
    ring.add(named("only"));
    // query keys hashing below, among, and above the stored keys all land on
    // the sole resource
    for q in ["", "0", "a", "zzzz", "~~~", "query"].iter() {
        assert_eq!(located_id(&ring, q).as_deref(), Some("only"));
    }
}

#[test]
fn clean_remove() {
    let mut ring: LightCycle<NamedResource> = LightCycle::new_with_replica_count(3);
    ring.add(named("alpha"));
    ring.add(named("beta"));
    ring.add(named("gamma"));
    assert_eq!(ring.len(), 9);

    let beta = named("beta");
    ring.remove(&beta);
    assert_eq!(ring.len(), 6, "exactly replica_count entries leave the ring");
    assert_eq!(ring.resource_count(), 2);
    for q in sample_queries() {
        let owner = located_id(&ring, &q).unwrap();
        assert_ne!(owner, "beta", "a removed resource owns nothing");
    }

    // removing an absent resource is a silent no-op
    ring.remove(&beta);
    assert_eq!(ring.len(), 6);
    assert_eq!(ring.resource_count(), 2);
}

#[test]
fn rebalance_equivalence() {
    let mut ring: LightCycle<NamedResource> = LightCycle::new_with_replica_count(2);
    for n in ["a", "b", "c", "d", "e"].iter() {
        ring.add(named(n));
    }
    assert_eq!(ring.len(), 10);
    let before: Vec<Option<String>> =
        sample_queries().iter().map(|q| located_id(&ring, q)).collect();

    ring.rebalance();
    // zero padding: the new replica count is the resource count itself
    assert_eq!(ring.resource_count(), 5, "rebalancing never changes the resource count");
    assert_eq!(ring.len(), 5 * 5, "ring size is resource count times new replica count");
    // every lookup still resolves to something
    for (q, old) in sample_queries().iter().zip(before.iter()) {
        assert!(located_id(&ring, q).is_some());
        assert!(old.is_some());
    }
}

#[test]
fn rebalance_triggered_by_growth() {
    // threshold 3, paddings 1 and 2: the fourth add crosses the threshold
    let mut ring: LightCycle<NamedResource> = LightCycle::new_with_rebalancing(2, 3, 1, 2);
    ring.add(named("a"));
    ring.add(named("b"));
    ring.add(named("c"));
    assert_eq!(ring.len(), 6);
    ring.add(named("d"));
    // rebalanced: replica count 4 + 1, threshold 4 + 2
    assert_eq!(ring.resource_count(), 4);
    assert_eq!(ring.len(), 4 * 5);
    ring.add(named("e"));
    // below the new threshold: no rebalance, newcomer enters at 5 replicas
    assert_eq!(ring.len(), 4 * 5 + 5);
}

#[test]
fn scenario_five_resources() {
    let names = ["A", "B", "C", "D", "E"];
    let mut ring: LightCycle<NamedResource> = LightCycle::new_with_replica_count(2);
    for n in names.iter() {
        ring.add(named(n));
    }
    assert_eq!(ring.len(), 10);
    assert_eq!(ring.resource_count(), 5);
    for q in sample_queries() {
        assert!(located_id(&ring, &q).is_some(), "locate is defined and non-empty");
    }

    // another insertion order gives the same ring
    let mut shuffled: LightCycle<NamedResource> = LightCycle::new_with_replica_count(2);
    for n in ["D", "B", "E", "A", "C"].iter() {
        shuffled.add(named(n));
    }
    assert_eq!(shuffled.len(), 10);
    for q in sample_queries() {
        assert_eq!(located_id(&ring, &q), located_id(&shuffled, &q));
    }

    // removing and re-adding a resource reproduces the exact prior ring
    let before: Vec<Option<String>> =
        sample_queries().iter().map(|q| located_id(&ring, q)).collect();
    let c = named("C");
    ring.remove(&c);
    assert_eq!(ring.len(), 8);
    ring.add(named("C"));
    assert_eq!(ring.len(), 10);
    assert_eq!(ring.resource_count(), 5);
    let after: Vec<Option<String>> =
        sample_queries().iter().map(|q| located_id(&ring, q)).collect();
    assert_eq!(before, after);
}

#[test]
fn idempotent_add_keeps_counts() {
    let mut ring: LightCycle<NamedResource> = LightCycle::new_with_replica_count(7);
    ring.add(named("one"));
    ring.add(named("two"));
    let len = ring.len();
    let count = ring.resource_count();
    ring.add(named("one"));
    ring.add(named("one"));
    assert_eq!(ring.len(), len);
    assert_eq!(ring.resource_count(), count);
}
