use nanocached::cluster::ring_dropped_a_member;
use nanocached::cluster::Directory;
use nanocached::cluster::RosterEntry;
use nanocached::key::Key;
use nanocached::leave::classify_decommission_key;
use nanocached::leave::plan_leave;
use nanocached::leave::DecommissionKeyOutcome;
use nanocached::leave::EmptyLeave;
use nanocached::leave::LeavePlan;
use nanocached::leave::LeaveState;
use nanocached::migration::entries_to_send_count;
use nanocached::migration::migration_rings;
use nanocached::rereplicate::rereplication_targets;
use nanocached::rereplicate::take_over_rereplication_slot;
use nanocached::rereplicate::ActiveRereplication;
use nanocached::ring::HashRing;

fn key(name: &[u8]) -> Key {
    Key::unnamespaced(name.to_vec())
}

fn without(names: &[String], gone: &str) -> Vec<String> {
    names.iter().filter(|name| *name != gone).cloned().collect()
}

#[test]
fn entrant_for_promotes_exactly_the_new_owner() {
    let names = vec![
        "node-a".to_string(),
        "node-b".to_string(),
        "node-c".to_string(),
    ];
    let before = HashRing::new(names.clone());
    let after = HashRing::new(without(&names, "node-a"));
    let leave = LeaveState {
        before_ring: before.clone(),
        after_ring: after.clone(),
        replication: 2,
        addresses: Directory::new(),
        tokens: Directory::new(),
    };

    let mut promoted = 0;
    for index in 0..200 {
        let key = key(format!("key-{index}").as_bytes());
        let owned = before.is_owner(&key, "node-a", 2);
        match leave.entrant_for(&key, "node-a") {
            Some(entrant) => {
                promoted += 1;
                assert!(owned, "entrant only exists for owned keys");
                // The entrant is a new owner and wasn't one before.
                assert!(after.is_owner(&key, &entrant, 2));
                assert!(!before.is_owner(&key, &entrant, 2));
            }
            None => assert!(!owned, "every owned key must have an entrant here"),
        }
    }
    assert!(promoted > 0, "the sample must exercise owned keys");
}

#[test]
fn rereplication_targets_are_new_owners_only_for_the_elected_sender() {
    let names = vec![
        "node-a".to_string(),
        "node-b".to_string(),
        "node-c".to_string(),
        "node-d".to_string(),
    ];
    let before = HashRing::new(names.clone());
    let after = HashRing::new(without(&names, "node-b"));
    let replication = 2;

    let mut nonempty = 0;
    for index in 0..500 {
        let key = key(format!("key-{index}").as_bytes());
        let old_owners = before.owners(&key, replication);
        let owned_before = old_owners.contains(&"node-a");

        // Reference: the highest-ranked old owner that survived.
        let elected_sender = old_owners
            .iter()
            .find(|owner| after.nodes().iter().any(|node| node == *owner))
            .copied();

        let targets = rereplication_targets(&before, &after, &key, replication, "node-a");

        if !owned_before || elected_sender != Some("node-a") {
            assert!(
                targets.is_empty(),
                "key-{index}: expected no targets (owned={owned_before}, \
                 sender={elected_sender:?}), got {targets:?}"
            );
            continue;
        }

        let new_owners = after.owners(&key, replication);
        let expected: Vec<String> = new_owners
            .iter()
            .filter(|owner| !old_owners.contains(owner))
            .map(|owner| owner.to_string())
            .collect();
        assert_eq!(targets, expected, "key-{index}");
        for target in &targets {
            assert!(after.is_owner(&key, target, replication));
            assert!(!before.is_owner(&key, target, replication));
            nonempty += 1;
        }
    }
    assert!(nonempty > 0, "the sample must exercise at least one send");
}

#[test]
fn rereplication_targets_promotes_the_next_ranked_survivor_when_the_top_owner_is_evicted() {
    let names = vec![
        "node-a".to_string(),
        "node-b".to_string(),
        "node-c".to_string(),
    ];
    let before = HashRing::new(names.clone());
    let after = HashRing::new(without(&names, "node-b"));
    let replication = 2;

    let mut found = false;
    for index in 0..500 {
        let key = key(format!("key-{index}").as_bytes());
        let old_owners = before.owners(&key, replication);
        if old_owners.first() != Some(&"node-b") || !old_owners.contains(&"node-a") {
            continue;
        }
        found = true;

        let targets = rereplication_targets(&before, &after, &key, replication, "node-a");
        assert!(
            !targets.is_empty(),
            "key-{index}: node-a should have been elected sender after node-b (rank 1) \
             was evicted"
        );
        break;
    }
    assert!(
        found,
        "the sample must contain a key with node-b ranked above node-a"
    );
}

#[test]
fn migration_rings_deduplicates_a_repeated_name_in_the_joined_roster() {
    let joined = vec![
        ("node-b".to_string(), "127.0.0.1:2".to_string()),
        ("node-b".to_string(), "127.0.0.1:2".to_string()),
        ("self".to_string(), "127.0.0.1:1".to_string()),
    ];
    let (before_ring, after_ring) = migration_rings("self", "joiner", &joined);

    let mut before_nodes = before_ring.nodes().to_vec();
    before_nodes.sort_unstable();
    assert_eq!(
        before_nodes,
        vec!["node-b".to_string(), "self".to_string()],
        "the repeated \"node-b\" entry must collapse to one member"
    );

    let mut after_nodes = after_ring.nodes().to_vec();
    after_nodes.sort_unstable();
    assert_eq!(
        after_nodes,
        vec![
            "joiner".to_string(),
            "node-b".to_string(),
            "self".to_string()
        ]
    );

    // With the duplicate collapsed, `owners`/`is_owner` must agree
    // for every member across every replication factor.
    let k = key(b"some-key");
    for ring in [&before_ring, &after_ring] {
        for replicas in 0..=ring.nodes().len() {
            let owners = ring.owners(&k, replicas);
            for name in ring.nodes() {
                assert_eq!(
                    owners.contains(&name.as_str()),
                    ring.is_owner(&k, name, replicas),
                    "name={name} replicas={replicas} owners={owners:?}"
                );
            }
        }
    }
}

#[test]
fn ring_dropped_a_member_detects_a_dead_member_absent_from_after() {
    let before = HashRing::new(vec![
        "dead".to_string(),
        "node-x".to_string(),
        "node-y".to_string(),
    ]);

    // A pure join (no drop): the joiner is a strict superset.
    let after_pure_join = HashRing::new(vec![
        "dead".to_string(),
        "node-x".to_string(),
        "node-y".to_string(),
        "joiner".to_string(),
    ]);
    assert!(!ring_dropped_a_member(&before, &after_pure_join));

    // The eviction was folded into the same flip as the join: "dead"
    // is gone, "joiner" is new.
    let after_join_and_eviction = HashRing::new(vec![
        "node-x".to_string(),
        "node-y".to_string(),
        "joiner".to_string(),
    ]);
    assert!(ring_dropped_a_member(&before, &after_join_and_eviction));

    // Identical membership: no change either way.
    assert!(!ring_dropped_a_member(&before, &before));
}

#[test]
fn a_classify_decommission_key_filters_ownership_before_deadline() {
    let before = HashRing::new(vec!["leaver".to_string(), "peer".to_string()]);
    let owned_key = (0..200u32)
        .map(|index| key(format!("key-{index}").as_bytes()))
        .find(|key| before.is_owner(key, "leaver", 1))
        .expect("the sample must contain an owned key");
    let unowned_key = (0..200u32)
        .map(|index| key(format!("key-{index}").as_bytes()))
        .find(|key| !before.is_owner(key, "leaver", 1))
        .expect("the sample must contain an unowned key");

    // Not owned: `NotOwned` regardless of the deadline.
    assert_eq!(
        classify_decommission_key(&unowned_key, &before, "leaver", 1, false),
        DecommissionKeyOutcome::NotOwned
    );
    assert_eq!(
        classify_decommission_key(&unowned_key, &before, "leaver", 1, true),
        DecommissionKeyOutcome::NotOwned
    );

    // Owned: `Owned` before the deadline, `DeadlinePassed` after.
    assert_eq!(
        classify_decommission_key(&owned_key, &before, "leaver", 1, false),
        DecommissionKeyOutcome::Owned
    );
    assert_eq!(
        classify_decommission_key(&owned_key, &before, "leaver", 1, true),
        DecommissionKeyOutcome::DeadlinePassed
    );
}

#[test]
fn a_join_displaces_no_owner_but_the_last() {
    let before = HashRing::new(vec!["a".to_string(), "b".to_string(), "c".to_string()]);
    let after = HashRing::new(vec![
        "a".to_string(),
        "b".to_string(),
        "c".to_string(),
        "joiner".to_string(),
    ]);
    let mut moved = 0;
    for index in 0..300 {
        let key = key(format!("key-{index}").as_bytes());
        let old_owners = before.owners(&key, 2);
        let new_owners = after.owners(&key, 2);
        assert_eq!(new_owners.len(), 2);
        if new_owners.contains(&"joiner") {
            moved += 1;
            assert!(new_owners.contains(&old_owners[0]));
            assert!(!new_owners.contains(&old_owners[1]));
        } else {
            assert_eq!(old_owners, new_owners);
        }
    }
    assert!(moved > 0);
}

#[test]
fn the_ranking_does_not_depend_on_the_order_of_the_nodes() {
    let one = HashRing::new(vec!["a".to_string(), "b".to_string(), "c".to_string()]);
    let other = HashRing::new(vec!["c".to_string(), "a".to_string(), "b".to_string()]);
    for index in 0..100 {
        let key = key(format!("key-{index}").as_bytes());
        assert_eq!(one.owners(&key, 3), other.owners(&key, 3));
    }
    assert!(one.owners(&key(b"x"), 0).is_empty());
    assert_eq!(one.owners(&key(b"x"), 9).len(), 3);
    assert!(one.has("b"));
    assert!(!one.has("d"));
}

#[test]
fn only_one_old_owner_sends_copies_after_an_eviction() {
    let names: Vec<String> = ["a", "b", "c", "d"]
        .iter()
        .map(|name| name.to_string())
        .collect();
    let before = HashRing::new(names.clone());
    let after = HashRing::new(without(&names, "b"));
    for index in 0..200 {
        let key = key(format!("key-{index}").as_bytes());
        let senders: Vec<&str> = ["a", "c", "d"]
            .into_iter()
            .filter(|name| !rereplication_targets(&before, &after, &key, 2, name).is_empty())
            .collect();
        if before.owners(&key, 2).contains(&"b") {
            assert_eq!(senders.len(), 1);
        } else {
            assert!(senders.is_empty());
        }
    }
}

#[test]
fn the_number_of_entries_owed_counts_what_the_joiner_comes_to_own() {
    let joined = vec![("self".to_string(), "127.0.0.1:1".to_string())];
    let (before, after) = migration_rings("self", "joiner", &joined);
    let keys: Vec<Key> = (0..50)
        .map(|index| key(format!("key-{index}").as_bytes()))
        .collect();
    let expected = keys
        .iter()
        .filter(|key| after.is_owner(key, "joiner", 1))
        .count();
    assert!(expected > 0 && expected < 50);
    assert_eq!(
        entries_to_send_count(&keys, &before, &after, "self", "joiner", 1),
        expected
    );
    assert_eq!(
        entries_to_send_count(&keys, &before, &after, "self", "joiner", 2),
        50
    );
}

#[test]
fn each_run_takes_the_slot_from_the_one_before() {
    let mut slot = None;
    let mut previous = Vec::new();
    for id in 0..32 {
        previous.push(take_over_rereplication_slot(
            &mut slot,
            ActiveRereplication { id },
        ));
    }
    assert_eq!(previous[0], None);
    for id in 1..32 {
        assert_eq!(previous[id], Some(ActiveRereplication { id: id as u64 - 1 }));
    }
    assert_eq!(slot, Some(ActiveRereplication { id: 31 }));

    // A slot that is taken already is taken from its occupant first.
    let mut slot = Some(ActiveRereplication { id: 9 });
    let mut all: Vec<Option<ActiveRereplication>> = [3, 1, 2]
        .into_iter()
        .map(|id| take_over_rereplication_slot(&mut slot, ActiveRereplication { id }))
        .collect();
    all.push(slot);
    assert_eq!(
        all,
        [9, 3, 1, 2]
            .into_iter()
            .map(|id| Some(ActiveRereplication { id }))
            .collect::<Vec<_>>()
    );
}

fn member(name: &str) -> RosterEntry {
    RosterEntry {
        name: name.to_string(),
        addr: format!("addr-{name}"),
        token: format!("tok-{name}"),
    }
}

#[test]
fn a_node_with_nobody_to_hand_over_to_leaves_at_once() {
    assert!(matches!(
        plan_leave(None, "self"),
        LeavePlan::LeaveNow(EmptyLeave::RosterUnavailable)
    ));
    assert!(matches!(
        plan_leave(Some((vec![member("other")], 2)), "self"),
        LeavePlan::LeaveNow(EmptyLeave::NotAMember)
    ));
    assert!(matches!(
        plan_leave(Some((vec![member("self")], 2)), "self"),
        LeavePlan::LeaveNow(EmptyLeave::LastMember)
    ));
    match plan_leave(Some((vec![member("self"), member("other")], 2)), "self") {
        LeavePlan::Drain(state) => {
            assert_eq!(state.after_ring.nodes().to_vec(), vec!["other".to_string()]);
            assert_eq!(state.addresses.get("other"), Some("addr-other"));
            assert_eq!(state.tokens.get("other"), Some("tok-other"));
        }
        LeavePlan::LeaveNow(reason) => panic!("unexpected {reason:?}"),
    }
}
