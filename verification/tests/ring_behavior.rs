use lightcycle::{HasId, LightCycle, NamedResource};

fn named(name: &str) -> NamedResource {
    NamedResource { name: String::from(name) }
}

fn fruit_names() -> Vec<String> {
    vec![
        "apple".to_string(),
        "kumquat".to_string(),
        "litchi".to_string(),
        "papaya".to_string(),
        "pear".to_string(),
        "mangosteen".to_string(),
        "orange".to_string(),
    ]
}

fn pick_some_fruit() -> Vec<NamedResource> {
    let mut result = Vec::new();
    for name in fruit_names() {
        result.push(NamedResource { name });
    }
    result
}

#[test]
fn locations_behave_as_expected() {
    // This test knows about how we generate id hashes.
    // First, make a zero-replicas ring.
    let mut ring: LightCycle<NamedResource> = LightCycle::new_with_replica_count(1);
    ring.add(named("pecan"));
    ring.add(named("walnut"));

    let location = ring.locate("pecan0").unwrap();
    assert_eq!(location.id(), "pecan");

    let location = ring.locate("walnut0").unwrap();
    assert_eq!(location.id(), "walnut");
}

#[test]
fn adding_new_replicas_moves_locations() {
    let fruits = pick_some_fruit();
    let mut fruit_iter = fruits.into_iter();
    let mut ring: LightCycle<NamedResource> = LightCycle::new_with_replica_count(2);

    let f = fruit_iter.next().unwrap();
    ring.add(f);
    assert_eq!(ring.len(), 2);
    assert_eq!(ring.resource_count(), 1);

    let location = ring
        .locate("nom nom nom")
        .expect("everything should have a home of some kind");
    assert_eq!(location.id(), "apple");

    for f in fruit_iter {
        ring.add(f);
    }

    assert_eq!(ring.len(), fruit_names().len() * 2);
    assert_eq!(ring.resource_count(), fruit_names().len());

    let location = ring
        .locate("nom nom nom")
        .expect("everything should have a home of some kind");
    assert_eq!(location.id(), "pear");

    let location = ring
        .locate("asdfasdfasdfsafasdf")
        .expect("everything should have a home of some kind");
    assert_eq!(location.id(), "orange");

    let location = ring
        .locate("1")
        .expect("everything should have a home of some kind");
    assert_eq!(location.id(), "mangosteen");
}

#[test]
fn single_node_rings() {
    let mut ring: LightCycle<NamedResource> = LightCycle::new_with_replica_count(5);
    let durian = named("durian");
    ring.add(durian); // nobody likes being next to durian
    let location = ring
        .locate("a")
        .expect("everything should have a home of some kind");
    assert_eq!(location.id(), "durian");
    let location = ring
        .locate("z")
        .expect("everything should have a home of some kind");
    assert_eq!(location.id(), "durian");
}

#[test]
fn adding_same_resource_twice() {
    let fruits = pick_some_fruit();
    let mut ring: LightCycle<NamedResource> = LightCycle::new_with_replica_count(5);
    for f in fruits.into_iter() {
        ring.add(f);
    }
    assert_eq!(ring.len(), fruit_names().len() * 5);
    assert_eq!(ring.resource_count(), fruit_names().len());

    for f in pick_some_fruit().into_iter() {
        ring.add(f);
    }
    assert_eq!(
        ring.len(),
        fruit_names().len() * 5,
        "adding resources we already have should be a no-op"
    );
    assert_eq!(
        ring.resource_count(),
        fruit_names().len(),
        "adding resources we already have should be a no-op"
    );
}
