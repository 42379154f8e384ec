use nanocached::cluster::Membership;
use nanocached::cluster::SharedRing;
use nanocached::forward::Channel;
use nanocached::handoff::take_pending_clears;
use nanocached::key::Key;
use nanocached::limits::forwarding_grace;
use nanocached::membership::adopt_membership;
use nanocached::message::from_secs;
use nanocached::message::ClearScope;
use nanocached::migration::ActiveMigration;
use nanocached::migration::MigrationGuard;
use nanocached::migration::MigrationOutcome;
use nanocached::node::abandon_migration;
use nanocached::node::migration_target_for;
use nanocached::node::route_clear;
use nanocached::node::sweep_action;
use nanocached::node::sweeps_again;
use nanocached::node::wrong_node;
use nanocached::node::ClearRoute;
use nanocached::node::NodeContext;
use nanocached::node::SweepAction;
use nanocached::ring::HashRing;

const NOW: u128 = 1_000_000_000_000_000;
const BEFORE: u64 = 1;
const AFTER: u64 = 2;

fn key(name: &[u8]) -> Key {
    Key::unnamespaced(name.to_vec())
}

fn ring(id: u64, names: &[&str]) -> SharedRing {
    SharedRing {
        id,
        ring: HashRing::new(names.iter().map(|name| name.to_string()).collect()),
    }
}

fn names(members: &[&str]) -> Vec<String> {
    members.iter().map(|name| name.to_string()).collect()
}

fn slot(
    nodes: &[&str],
    completed_at: Option<u128>,
    marked: &[&str],
    confirmed: bool,
) -> ActiveMigration {
    ActiveMigration {
        joining_name: "joiner-0".to_string(),
        joining_addr: "127.0.0.1:9".to_string(),
        joining_token: "tok-joiner-0".to_string(),
        after_ring: ring(AFTER, nodes),
        replication: 2,
        completed_at,
        forwarding_grace: forwarding_grace(0),
        acked_entries: Some(0),
        abort_requested: false,
        marked_keys: marked.iter().map(|name| key(name.as_bytes())).collect(),
        confirmed,
        pre_completion_ring: None,
        pending_clears: Vec::new(),
    }
}

fn completed_forwarding_slot(marked: &[&str]) -> ActiveMigration {
    slot(&["ready-node", "joiner-0"], Some(NOW), marked, false)
}

fn test_active_migration(completed_at: Option<u128>) -> ActiveMigration {
    slot(&["test-node", "joiner-0"], completed_at, &[], false)
}

fn stale() -> u128 {
    NOW - forwarding_grace(0) - from_secs(1)
}

fn node(active_migration: Option<ActiveMigration>) -> NodeContext {
    let mut node = NodeContext::new("ready-node".to_string(), "tk-ready-node".to_string());
    node.active_migration = active_migration;
    node
}

fn completed_unconfirmed_context(marked: &[&str]) -> NodeContext {
    let after = &["ready-node", "other-node", "joiner-0"];
    let mut active = slot(after, Some(NOW), marked, false);
    active.pre_completion_ring = Some(Membership {
        ring: ring(BEFORE, &["ready-node", "other-node"]),
        replication: 2,
    });
    let mut node = node(Some(active));
    node.known_ring = Some(Membership {
        ring: ring(AFTER, after),
        replication: 2,
    });
    node
}

fn known_id(node: &NodeContext) -> u64 {
    node.known_ring.as_ref().unwrap().ring.id
}

#[test]
fn abandoning_a_completed_join_reverts_known_ring() {
    let mut node_context = completed_unconfirmed_context(&["key-3"]);

    // While forwarding (unconfirmed), the displaced key is still served
    // locally — the join isn't visible to clients yet.
    assert!(!wrong_node(&mut node_context, &key(b"key-3"), NOW));

    let restored = abandon_migration(&mut node_context, "joiner-0")
        .expect("a completed handoff must hand back its dead copies to restore");
    assert_eq!(restored, vec![key(b"key-3")]);

    // The slot is gone and known_ring is back to the pre-join snapshot.
    assert!(node_context.active_migration.is_none());
    assert_eq!(known_id(&node_context), BEFORE);

    assert!(!wrong_node(&mut node_context, &key(b"key-3"), NOW));
    assert!(!wrong_node(&mut node_context, &key(b"key-0"), NOW));
}

#[test]
fn abandon_does_not_clobber_a_newer_known_ring() {
    let mut node_context = completed_unconfirmed_context(&["key-3"]);
    node_context.known_ring = Some(Membership {
        ring: ring(
            3,
            &["ready-node", "other-node", "joiner-0", "joiner-1"],
        ),
        replication: 2,
    });

    let restored = abandon_migration(&mut node_context, "joiner-0").unwrap();
    assert_eq!(restored, vec![key(b"key-3")]);
    assert_eq!(
        known_id(&node_context),
        3,
        "a newer known_ring must not be reverted to the pre-join snapshot"
    );
}

#[test]
fn abandoning_an_in_flight_join_only_requests_abort() {
    let mut node_context = completed_unconfirmed_context(&["key-3"]);
    node_context.active_migration.as_mut().unwrap().completed_at = None;

    assert!(abandon_migration(&mut node_context, "joiner-0").is_none());
    // The slot survives with abort requested, and known_ring is left
    // exactly as it was.
    let active = node_context
        .active_migration
        .as_ref()
        .expect("an in-flight slot must not be taken");
    assert!(active.abort_requested);
    assert_eq!(known_id(&node_context), AFTER);
}

#[test]
fn abandoning_another_join_changes_nothing() {
    let mut node_context = completed_unconfirmed_context(&["key-3"]);
    assert!(abandon_migration(&mut node_context, "joiner-7").is_none());
    assert!(node_context.active_migration.is_some());
    assert_eq!(known_id(&node_context), AFTER);
    assert!(abandon_migration(&mut node(None), "joiner-0").is_none());
}

#[test]
fn migration_guard_new_reverts_known_ring_for_an_implicitly_abandoned_handoff() {
    let mut node_context = completed_unconfirmed_context(&["key-3"]);

    // The roster lists only ready-node, so joiner-0 (the previous,
    // completed-but-unconfirmed joiner) is missing — that handoff was
    // abandoned.
    let joined = vec![("ready-node".to_string(), "127.0.0.1:1".to_string())];
    let outcome = MigrationGuard::new(
        &mut node_context.active_migration,
        "joiner-1".to_string(),
        "127.0.0.1:10".to_string(),
        "tok-joiner-1".to_string(),
        ring(4, &["ready-node", "other-node", "joiner-1"]),
        2,
        &joined,
        &mut node_context.known_ring,
        NOW,
    );

    let _guard = match outcome {
        MigrationOutcome::New { restore, guard } => {
            assert_eq!(restore, vec![key(b"key-3")]);
            guard
        }
        _ => panic!("expected a new guard"),
    };

    // known_ring is back to the pre-join snapshot, not still pointing at
    // joiner-0's abandoned post-join ring.
    assert_eq!(known_id(&node_context), BEFORE);
    assert_ne!(known_id(&node_context), AFTER);
}

#[test]
fn a_completed_forwarding_window_expires_after_the_grace() {
    let mut node_context = node(Some(slot(
        &["ready-node", "joiner-0"],
        Some(stale()),
        &[],
        true,
    )));

    assert!(migration_target_for(&mut node_context, &key(b"key-0"), NOW).is_none());
    assert!(
        node_context.active_migration.is_none(),
        "an expired forwarding entry should be cleared lazily"
    );
}

#[test]
fn forwards_of_one_handoff_share_a_connection() {
    let mut node_context = node(Some(completed_forwarding_slot(&[])));
    for name in ["key-0", "key-1", "key-2"] {
        let target = migration_target_for(&mut node_context, &key(name.as_bytes()), NOW).unwrap();
        assert_eq!(target.addr, "127.0.0.1:9");
        assert_eq!(target.token, "tok-joiner-0");
        assert!(matches!(target.channel, Channel::Joiner(AFTER)));
    }
}

fn new_guard(
    slot: &mut Option<ActiveMigration>,
    joined: &[(&str, &str)],
    known_ring: &mut Option<Membership>,
) -> MigrationOutcome {
    let joined = joined
        .iter()
        .map(|(name, addr)| (name.to_string(), addr.to_string()))
        .collect();
    MigrationGuard::new(
        slot,
        "joiner-1".to_string(),
        "127.0.0.1:10".to_string(),
        "tok-joiner-1".to_string(),
        ring(4, &["ready-node", "joiner-1"]),
        2,
        &joined,
        known_ring,
        NOW,
    )
}

#[test]
fn migration_guard_reuses_a_stale_completed_slot_instead_of_rejecting_a_new_join() {
    let mut taken = Some(slot(&["ready-node", "joiner-0"], Some(stale()), &[], true));

    let outcome = new_guard(&mut taken, &[], &mut None);

    assert!(
        matches!(outcome, MigrationOutcome::New { .. }),
        "an expired slot must not block a new join"
    );
    assert_eq!(taken.as_ref().unwrap().joining_name, "joiner-1");
}

#[test]
fn migration_guard_rejects_a_still_active_conflicting_migration() {
    let mut active = slot(&["ready-node", "joiner-0"], None, &[], false);
    active.forwarding_grace = 0;
    let mut taken = Some(active);

    let outcome = new_guard(&mut taken, &[], &mut None);

    assert!(
        matches!(outcome, MigrationOutcome::Conflict),
        "a still-active migration must not be clobbered"
    );
    assert_eq!(
        taken.as_ref().unwrap().joining_name,
        "joiner-0",
        "the original migration must be left untouched"
    );
}

#[test]
fn migration_guard_accepts_the_next_join_while_a_completed_handoff_is_still_forwarding() {
    let mut taken = Some(completed_forwarding_slot(&["dead"]));

    let _guard = match new_guard(
        &mut taken,
        &[("ready-node", "127.0.0.1:1"), ("joiner-0", "127.0.0.1:9")],
        &mut None,
    ) {
        MigrationOutcome::New { restore, guard } => {
            assert!(restore.is_empty());
            guard
        }
        _ => panic!("expected a new guard"),
    };
    assert_eq!(taken.as_ref().unwrap().joining_name, "joiner-1");
}

#[test]
fn migration_guard_restores_dead_copies_of_a_handoff_whose_joiner_never_joined() {
    let mut taken = Some(completed_forwarding_slot(&["dead-a", "dead-b"]));

    let _guard = match new_guard(&mut taken, &[("ready-node", "127.0.0.1:1")], &mut None) {
        MigrationOutcome::New { restore, guard } => {
            assert_eq!(restore, vec![key(b"dead-a"), key(b"dead-b")]);
            guard
        }
        _ => panic!("expected a new guard"),
    };
    assert_eq!(taken.as_ref().unwrap().joining_name, "joiner-1");
}

#[test]
fn a_repeated_request_is_acknowledged_with_the_same_count() {
    let mut taken = None;
    let mut known = None;
    let guard = match new_guard(&mut taken, &[], &mut known) {
        MigrationOutcome::New { guard, .. } => guard,
        _ => panic!("expected a new guard"),
    };
    assert!(matches!(
        new_guard(&mut taken, &[], &mut known),
        MigrationOutcome::Conflict
    ));
    guard.ack(&mut taken, 7);
    assert!(matches!(
        new_guard(&mut taken, &[], &mut known),
        MigrationOutcome::DuplicateAcked(7)
    ));
    guard.release(&mut taken);
    assert!(taken.is_none());
}

#[test]
fn a_completed_guard_leaves_its_slot_behind() {
    let mut taken = None;
    let mut guard = match new_guard(&mut taken, &[], &mut None) {
        MigrationOutcome::New { guard, .. } => guard,
        _ => panic!("expected a new guard"),
    };
    guard.completed(&mut taken, 1000, vec![key(b"dead")], None, NOW);
    guard.release(&mut taken);
    let active = taken.unwrap();
    assert_eq!(active.completed_at, Some(NOW));
    assert_eq!(active.forwarding_grace, forwarding_grace(1000));
    assert_eq!(active.marked_keys, vec![key(b"dead")]);
    assert!(active.forwarding_open(NOW + forwarding_grace(1000) - 1));
    assert!(!active.forwarding_open(NOW + forwarding_grace(1000)));
    assert!(!active.expired(NOW + forwarding_grace(1000)));
}

#[test]
fn an_unconfirmed_completed_slot_outlives_its_grace_but_stops_forwarding() {
    let mut active = completed_forwarding_slot(&["dead"]);
    active.completed_at = Some(stale());
    let mut node_context = node(Some(active));

    assert!(migration_target_for(&mut node_context, &key(b"key-0"), NOW).is_none());
    assert!(
        node_context.active_migration.is_some(),
        "an unconfirmed slot must keep holding its marks"
    );

    // Once confirmed, the same stale slot is cleared lazily as before.
    node_context.active_migration.as_mut().unwrap().confirmed = true;
    assert!(migration_target_for(&mut node_context, &key(b"key-0"), NOW).is_none());
    assert!(node_context.active_migration.is_none());
}

#[test]
fn adopt_membership_confirms_a_completed_handoff_once_the_roster_lists_its_joiner() {
    let mut known_ring = None;
    let mut taken = Some(completed_forwarding_slot(&["dead"]));

    // Roster without the joiner: neither adopted nor confirmed.
    adopt_membership(&mut known_ring, &mut taken, &names(&["ready-node"]), 2, 5, NOW);
    assert!(!taken.as_ref().unwrap().confirmed);
    assert!(known_ring.is_none());

    // Roster with the joiner: both.
    adopt_membership(
        &mut known_ring,
        &mut taken,
        &names(&["joiner-0", "ready-node"]),
        2,
        6,
        NOW,
    );
    assert!(taken.as_ref().unwrap().confirmed);
    assert!(known_ring.is_some());
}

fn member_names(known_ring: &Option<Membership>) -> Option<(Vec<String>, usize)> {
    known_ring.as_ref().map(|membership| {
        let mut names = membership.ring.ring.nodes().to_vec();
        names.sort_unstable();
        (names, membership.replication)
    })
}

#[test]
fn adopt_membership_sets_and_replaces_the_belief_only_when_it_changes() {
    let mut known_ring = None;
    let mut taken = None;

    // First roster: from no belief to one.
    adopt_membership(
        &mut known_ring,
        &mut taken,
        &names(&["test-node", "node-b"]),
        2,
        1,
        NOW,
    );
    assert_eq!(
        member_names(&known_ring),
        Some((names(&["node-b", "test-node"]), 2))
    );

    // Same members in another order: no churn (same ring).
    let change = adopt_membership(
        &mut known_ring,
        &mut taken,
        &names(&["node-b", "test-node"]),
        2,
        2,
        NOW,
    );
    assert!(change.is_none());
    assert_eq!(known_ring.as_ref().unwrap().ring.id, 1);

    // node-b evicted: the belief shrinks.
    let change =
        adopt_membership(&mut known_ring, &mut taken, &names(&["test-node"]), 2, 3, NOW);
    assert!(change.unwrap().dropped_a_member());
    assert_eq!(
        member_names(&known_ring),
        Some((names(&["test-node"]), 2))
    );

    // A different replication factor alone is a change too.
    adopt_membership(&mut known_ring, &mut taken, &names(&["test-node"]), 3, 4, NOW);
    assert_eq!(
        member_names(&known_ring),
        Some((names(&["test-node"]), 3))
    );
}

#[test]
fn adopt_membership_waits_only_while_the_join_is_still_pending() {
    let mut known_ring = None;
    let alone = names(&["test-node"]);

    // In flight (not completed): skipped.
    let mut taken = Some(test_active_migration(None));
    adopt_membership(&mut known_ring, &mut taken, &alone, 2, 1, NOW);
    assert!(known_ring.is_none());

    // Completed but still forwarding writes, roster without the
    // joiner (the join itself hasn't completed): skipped.
    taken = Some(test_active_migration(Some(NOW)));
    adopt_membership(&mut known_ring, &mut taken, &alone, 2, 2, NOW);
    assert!(known_ring.is_none());

    // Still forwarding, but the roster now lists the joiner (the join
    // completed) and is missing a member (evicted): applied.
    adopt_membership(
        &mut known_ring,
        &mut taken,
        &names(&["joiner-0", "test-node"]),
        2,
        3,
        NOW,
    );
    assert_eq!(
        member_names(&known_ring),
        Some((names(&["joiner-0", "test-node"]), 2))
    );
    known_ring = None;

    // The joiner was confirmed by an earlier roster and has now been
    // evicted (roster without it) while this node is still inside
    // the forwarding window: applied.
    let mut confirmed = test_active_migration(Some(NOW));
    confirmed.confirmed = true;
    taken = Some(confirmed);
    adopt_membership(&mut known_ring, &mut taken, &alone, 2, 4, NOW);
    assert_eq!(member_names(&known_ring), Some((alone.clone(), 2)));
    // And the forwarding window closes with it — nothing is left to
    // forward to an evicted joiner.
    assert!(taken.is_none());
    known_ring = None;

    // Forwarding grace elapsed (a stale slot no request has lazily
    // cleared yet): applied.
    taken = Some(test_active_migration(Some(stale())));
    adopt_membership(&mut known_ring, &mut taken, &alone, 2, 5, NOW);
    assert_eq!(member_names(&known_ring), Some((alone, 2)));
}

#[test]
fn route_clear_queues_during_transfer_then_forwards_then_stops() {
    let mut active = slot(&["ready-node", "joiner-0"], None, &[], false);
    active.forwarding_grace = 0;
    let mut node_context = node(Some(active));
    let scope = ClearScope::Namespace(b"users".to_vec());

    // Transfer running: queued on the slot, in order.
    assert!(matches!(
        route_clear(&mut node_context, &scope, NOW),
        ClearRoute::Queued
    ));
    assert!(matches!(
        route_clear(&mut node_context, &ClearScope::All, NOW),
        ClearRoute::Queued
    ));
    assert_eq!(
        node_context.active_migration.as_ref().unwrap().pending_clears,
        vec![scope.clone(), ClearScope::All]
    );

    // Completed, forwarding window open: forwarded to the joiner.
    {
        let active = node_context.active_migration.as_mut().unwrap();
        active.completed_at = Some(NOW);
        active.forwarding_grace = from_secs(60);
    }
    match route_clear(&mut node_context, &scope, NOW) {
        ClearRoute::Forward(target) => assert_eq!(target.addr, "127.0.0.1:9"),
        _ => panic!("a completed handoff must forward clears"),
    }

    // Window closed: nothing to replay.
    node_context.active_migration.as_mut().unwrap().forwarding_grace = 0;
    assert!(matches!(
        route_clear(&mut node_context, &scope, NOW),
        ClearRoute::Local
    ));

    // No handoff at all.
    node_context.active_migration = None;
    assert!(matches!(
        route_clear(&mut node_context, &scope, NOW),
        ClearRoute::Local
    ));
}

#[test]
fn pending_clears_are_taken_once_and_in_order() {
    let mut node_context = node(Some(slot(&["ready-node", "joiner-0"], None, &[], false)));
    let scope = ClearScope::Namespace(b"users".to_vec());
    route_clear(&mut node_context, &scope, NOW);
    route_clear(&mut node_context, &ClearScope::All, NOW);
    assert_eq!(
        take_pending_clears(&mut node_context.active_migration),
        vec![scope, ClearScope::All]
    );
    assert!(take_pending_clears(&mut node_context.active_migration).is_empty());
    assert!(take_pending_clears(&mut None).is_empty());
}

#[test]
fn the_sweep_pauses_during_a_transfer_and_keeps_marks_until_the_join_is_confirmed() {
    assert_eq!(sweep_action(&None), SweepAction::Sweep { marked: true });
    assert_eq!(
        sweep_action(&Some(test_active_migration(None))),
        SweepAction::Pause
    );
    let mut done = test_active_migration(Some(NOW));
    assert_eq!(
        sweep_action(&Some(test_active_migration(Some(NOW)))),
        SweepAction::Sweep { marked: false }
    );
    done.confirmed = true;
    assert_eq!(
        sweep_action(&Some(done)),
        SweepAction::Sweep { marked: true }
    );
    assert!(sweeps_again(Some(100), 100));
    assert!(!sweeps_again(Some(99), 100));
    assert!(!sweeps_again(None, 100));
}

#[test]
fn a_confirmed_join_turns_displaced_keys_away() {
    let after = &["ready-node", "other-node", "joiner-0"];
    let mut node_context = completed_unconfirmed_context(&[]);
    let ring_after = ring(AFTER, after);
    let displaced = (0..200)
        .map(|index| key(format!("key-{index}").as_bytes()))
        .find(|key| !ring_after.ring.is_owner(key, "ready-node", 2))
        .unwrap();
    assert!(!wrong_node(&mut node_context, &displaced, NOW));
    node_context.active_migration.as_mut().unwrap().confirmed = true;
    assert!(wrong_node(&mut node_context, &displaced, NOW));
    // A node that knows of no cluster serves everything.
    assert!(!wrong_node(&mut node(None), &displaced, NOW));
}
