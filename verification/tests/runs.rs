use nanocached::cluster::Directory;
use nanocached::cluster::Membership;
use nanocached::cluster::RosterEntry;
use nanocached::cluster::SharedRing;
use nanocached::forward::after_forward_attempt;
use nanocached::forward::keeps_connection;
use nanocached::forward::offer_forward;
use nanocached::forward::ForwardOutcome;
use nanocached::forward::ForwardedWrite;
use nanocached::forward::QueueAction;
use nanocached::forward::QueueReply;
use nanocached::forward::RetryAction;
use nanocached::forward::Transfer;
use nanocached::forward::TransferAction;
use nanocached::handoff::HandoffRun;
use nanocached::handoff::HandoffStep;
use nanocached::key::Key;
use nanocached::leave::drain_grace;
use nanocached::leave::drain_waits;
use nanocached::leave::plan_leave;
use nanocached::leave::Decommission;
use nanocached::leave::DrainRun;
use nanocached::leave::DrainStep;
use nanocached::leave::LeaveAction;
use nanocached::leave::LeavePhase;
use nanocached::leave::LeavePlan;
use nanocached::leave::LeaveState;
use nanocached::limits::forwarding_grace;
use nanocached::limits::MAX_PENDING_FORWARD_WAITERS;
use nanocached::migration::migration_rings;
use nanocached::migration::ActiveMigration;
use nanocached::migration::MigrationGuard;
use nanocached::migration::MigrationOutcome;
use nanocached::rereplicate::finish_rereplication;
use nanocached::rereplicate::rereplication_targets;
use nanocached::rereplicate::ring_change_waits;
use nanocached::rereplicate::ActiveRereplication;
use nanocached::rereplicate::CopyRun;
use nanocached::rereplicate::CopyStep;
use nanocached::rereplicate::Rereplications;
use nanocached::ring::HashRing;

const NOW: u128 = 1_000_000_000_000_000;

fn key(name: &[u8]) -> Key {
    Key::unnamespaced(name.to_vec())
}

fn keys(count: usize) -> Vec<Key> {
    (0..count)
        .map(|index| key(format!("key-{index}").as_bytes()))
        .collect()
}

fn names(members: &[&str]) -> Vec<String> {
    members.iter().map(|name| name.to_string()).collect()
}

/// The key, the value, the time to live, whether it gives way, and the token.
fn entry(write: ForwardedWrite) -> (Key, Vec<u8>, Option<u128>, bool, String) {
    match write {
        ForwardedWrite::HandoffSet {
            key,
            value,
            ttl,
            if_absent,
            token,
        } => (key.clone(), value.to_vec(), ttl, if_absent, token.to_string()),
        _ => panic!("not an entry"),
    }
}

struct Handoff {
    run: HandoffRun,
    guard: MigrationGuard,
    slot: Option<ActiveMigration>,
    known: Option<Membership>,
    sent: Vec<Key>,
    marked: Vec<Key>,
}

impl Handoff {
    fn new(joined: &[&str], replication: usize, keys: Vec<Key>) -> Handoff {
        let joined = joined
            .iter()
            .map(|name| (name.to_string(), String::new()))
            .collect();
        let (before, after) = migration_rings("self", "joiner", &joined);
        let mut slot = None;
        let mut known = None;
        let shared = SharedRing { id: 9, ring: after };
        let guard = match MigrationGuard::new(
            &mut slot,
            "joiner".to_string(),
            "addr".to_string(),
            "tok".to_string(),
            shared.share(),
            replication,
            &joined,
            &mut known,
            NOW,
        ) {
            MigrationOutcome::New { guard, .. } => guard,
            other => panic!("unexpected {other:?}"),
        };
        Handoff {
            run: HandoffRun::new(
                "self".to_string(),
                "joiner".to_string(),
                replication,
                before,
                shared,
                keys,
            ),
            guard,
            slot,
            known,
            sent: Vec::new(),
            marked: Vec::new(),
        }
    }

    /// Ends the transfer; `delivered` says whether its last clears arrived.
    fn close(&mut self, delivered: bool, now: u128) -> HandoffStep {
        self.run.closing_clears_replayed(
            delivered,
            &mut self.known,
            &mut self.guard,
            &mut self.slot,
            now,
        )
    }

    /// Hands over every key; `delivers` says which of them arrive.
    fn transfer(&mut self, gone: &[Key], delivers: impl Fn(&Key) -> bool) -> HandoffStep {
        loop {
            match self.run.choose_key(false) {
                HandoffStep::ReplayClears => {}
                other => return other,
            }
            assert_eq!(self.run.clears_replayed(true), HandoffStep::Peek);
            let current = self.run.current().clone();
            match self.run.peeked(!gone.contains(&current)) {
                HandoffStep::Send => {}
                other => {
                    assert_eq!(other, HandoffStep::Choose);
                    continue;
                }
            }
            assert_eq!(
                entry(self.run.write(b"value", Some(7), "tok")),
                (current.clone(), b"value".to_vec(), Some(7), true, "tok".to_string())
            );
            match self.run.transferred(delivers(&current)) {
                HandoffStep::Mark => {
                    self.sent.push(current.clone());
                    self.marked.push(current);
                }
                HandoffStep::Choose => self.sent.push(current),
                other => return other,
            }
        }
    }
}

#[test]
fn migrate_with_replication_marks_displaced_copies_and_keeps_the_senders() {
    let all = keys(60);
    let mut handoff = Handoff::new(&["self", "other"], 2, all.clone());
    let gone = vec![all[0].clone()];
    assert_eq!(handoff.transfer(&gone, |_| true), HandoffStep::Close);
    let (before, after) = migration_rings(
        "self",
        "joiner",
        &vec![
            ("self".to_string(), String::new()),
            ("other".to_string(), String::new()),
        ],
    );
    let expected: Vec<Key> = all
        .iter()
        .filter(|key| after.is_owner(key, "joiner", 2) && before.is_owner(key, "self", 2))
        .filter(|key| !gone.contains(key))
        .cloned()
        .collect();
    assert_eq!(handoff.sent, expected);
    let dead: Vec<Key> = expected
        .iter()
        .filter(|key| !after.is_owner(key, "self", 2))
        .cloned()
        .collect();
    assert!(!dead.is_empty() && dead.len() < expected.len());
    assert_eq!(handoff.marked, dead);
    assert_eq!(handoff.run.marked(), &dead);
    assert_eq!(handoff.run.sent_count(), expected.len());

    assert!(handoff.known.is_none());
    assert_eq!(handoff.close(true, NOW + 5), HandoffStep::ReplayClears);
    assert_eq!(handoff.known.as_ref().unwrap().ring.id, 9);
    assert!(handoff.run.previous().is_none());
    let active = handoff.slot.as_ref().unwrap();
    assert_eq!(active.completed_at, Some(NOW + 5));
    assert_eq!(active.forwarding_grace, forwarding_grace(expected.len()));
    assert_eq!(active.marked_keys, dead);
    assert_eq!(handoff.run.late_clears_replayed(), HandoffStep::Report);
    assert_eq!(handoff.run.reported(), HandoffStep::Finish);
    handoff.guard.release(&mut handoff.slot);
    assert!(handoff.slot.is_some());
}

#[test]
fn migrate_command_gives_up_and_rolls_back_after_permanent_transfer_failure() {
    let all = keys(20);
    let mut handoff = Handoff::new(&["self"], 1, all);
    let count = std::cell::Cell::new(0);
    let step = handoff.transfer(&[], |_| {
        count.set(count.get() + 1);
        count.get() < 3
    });
    assert_eq!(step, HandoffStep::RollBack);
    assert_eq!(handoff.sent.len(), 2);
    assert_eq!(handoff.run.marked(), &handoff.marked);
    assert!(handoff.known.is_none());
    handoff.guard.release(&mut handoff.slot);
    assert!(handoff.slot.is_none());
}

#[test]
fn migrate_command_cancelled_mid_transfer_rolls_back_marks_and_skips_completion() {
    let mut handoff = Handoff::new(&["self"], 2, keys(3));
    assert_eq!(handoff.run.choose_key(true), HandoffStep::RollBack);
    let mut handoff = Handoff::new(&["self"], 2, keys(3));
    assert_eq!(handoff.run.choose_key(false), HandoffStep::ReplayClears);
    assert_eq!(handoff.run.clears_replayed(false), HandoffStep::RollBack);
}

#[test]
fn an_m_that_flips_a_known_ring_still_listing_an_evicted_member_triggers_rereplication() {
    let mut handoff = Handoff::new(&["self"], 2, Vec::new());
    handoff.known = Some(Membership {
        ring: SharedRing {
            id: 1,
            ring: HashRing::new(names(&["self", "dead"])),
        },
        replication: 2,
    });
    assert_eq!(handoff.run.choose_key(false), HandoffStep::Close);
    handoff.close(true, NOW);
    handoff.run.late_clears_replayed();
    assert_eq!(handoff.run.reported(), HandoffStep::Rereplicate);
}

#[test]
fn a_handoff_whose_last_clears_fail_is_given_up() {
    let mut handoff = Handoff::new(&["self"], 2, Vec::new());
    handoff.known = Some(Membership {
        ring: SharedRing {
            id: 1,
            ring: HashRing::new(names(&["self"])),
        },
        replication: 2,
    });
    assert_eq!(handoff.run.choose_key(false), HandoffStep::Close);
    assert_eq!(handoff.close(false, NOW), HandoffStep::RollBack);
    // The node believes what it did before, and the slot is freed.
    assert_eq!(handoff.known.as_ref().unwrap().ring.id, 1);
    assert!(handoff.run.previous().is_none());
    assert_eq!(handoff.slot.as_ref().unwrap().completed_at, None);
    handoff.guard.release(&mut handoff.slot);
    assert!(handoff.slot.is_none());
}

fn leave_state(survivors: &[&str], replication: usize) -> LeaveState {
    let mut members = vec![member("leaver")];
    members.extend(survivors.iter().map(|name| member(name)));
    match plan_leave(Some((members, replication)), "leaver") {
        LeavePlan::Drain(state) => state,
        LeavePlan::LeaveNow(reason) => panic!("unexpected {reason:?}"),
    }
}

fn member(name: &str) -> RosterEntry {
    RosterEntry {
        name: name.to_string(),
        addr: format!("addr-{name}"),
        token: format!("tok-{name}"),
    }
}

#[test]
fn a_decommission_hands_off_owned_keys_and_leaves() {
    let leave = leave_state(&["peer-a", "peer-b"], 1);
    let all = keys(40);
    let mut run = DrainRun::new(all.clone(), &leave, "leaver");
    let mut sent = Vec::new();
    loop {
        match run.next_key(&leave, "leaver", false) {
            DrainStep::NextKey => continue,
            DrainStep::Finished => break,
            step => assert_eq!(step, DrainStep::Peek),
        }
        assert_eq!(run.peeked(&leave, "leaver", true), DrainStep::Send);
        let current = run.current(&leave, "leaver").clone();
        let target = run.target(&leave, "leaver").unwrap();
        let entrant = leave.entrant_for(&current, "leaver").unwrap();
        assert_eq!(target.addr, format!("addr-{entrant}"));
        assert_eq!(target.token, format!("tok-{entrant}"));
        let write = run.write(&leave, "leaver", b"value", None).unwrap();
        assert_eq!(
            entry(write),
            (
                current.clone(),
                b"value".to_vec(),
                None,
                false,
                format!("tok-{entrant}")
            )
        );
        run.transferred(&leave, "leaver", true);
        sent.push(current);
    }
    let owned: Vec<Key> = all
        .into_iter()
        .filter(|key| leave.before_ring.is_owner(key, "leaver", 1))
        .collect();
    assert!(!owned.is_empty());
    assert_eq!(sent, owned);
    assert_eq!(run.sent(&leave, "leaver"), owned.len());
    assert_eq!(run.left_behind(&leave, "leaver"), 0);
}

#[test]
fn a_drain_counts_only_owned_keys_as_left_behind() {
    let leave = leave_state(&["peer"], 1);
    let all = keys(40);
    let owned = all
        .iter()
        .filter(|key| leave.before_ring.is_owner(key, "leaver", 1))
        .count();
    let mut run = DrainRun::new(all, &leave, "leaver");
    while run.next_key(&leave, "leaver", true) == DrainStep::NextKey {}
    assert_eq!(run.left_behind(&leave, "leaver"), owned);
    assert_eq!(run.sent(&leave, "leaver"), 0);

    let mut run = DrainRun::new(keys(40), &leave, "leaver");
    while run.next_key(&leave, "leaver", false) == DrainStep::NextKey {}
    assert_eq!(run.peeked(&leave, "leaver", false), DrainStep::NextKey);
    while run.next_key(&leave, "leaver", false) == DrainStep::NextKey {}
    run.peeked(&leave, "leaver", true);
    run.transferred(&leave, "leaver", false);
    assert_eq!(run.left_behind(&leave, "leaver"), 1);
}

#[test]
fn the_grace_of_a_leave_ends_with_its_budget() {
    assert_eq!(drain_grace(0, NOW, NOW + 5), 5);
    assert_eq!(drain_grace(0, NOW, NOW - 5), 0);
    assert_eq!(
        drain_grace(0, NOW, NOW + 2 * forwarding_grace(0)),
        forwarding_grace(0)
    );
}

#[test]
fn a_leave_waits_for_a_running_handoff_within_bounds() {
    let handoff = Handoff::new(&["self"], 1, Vec::new());
    assert!(drain_waits(&handoff.slot, 0, NOW, NOW + 1));
    assert!(!drain_waits(&handoff.slot, 50, NOW, NOW + 1));
    assert!(!drain_waits(&handoff.slot, 0, NOW + 1, NOW + 1));
    assert!(!drain_waits(&None, 0, NOW, NOW + 1));
}

#[test]
fn a_leave_stops_the_handoff_drains_tells_discovery_and_forwards() {
    let mut handoff = Handoff::new(&["self"], 1, Vec::new());
    let budget = 2 * forwarding_grace(0);
    let mut leave = Decommission::begin(&mut handoff.slot, budget, NOW);
    assert!(handoff.slot.as_ref().unwrap().abort_requested);
    for _ in 0..50 {
        assert_eq!(leave.poll(&handoff.slot, NOW), LeaveAction::Poll);
    }
    assert_eq!(leave.poll(&handoff.slot, NOW), LeaveAction::FetchRoster);
    let mut leaving = None;
    let roster = Some((vec![member("leaver"), member("peer")], 2));
    assert_eq!(
        leave.fetched(roster, "leaver", &mut leaving),
        LeaveAction::ListKeys
    );
    let plan = leaving.unwrap();
    assert_eq!(plan.replication, 2);
    assert_eq!(plan.addresses.get("peer"), Some("addr-peer"));
    assert_eq!(leave.listed(true), LeaveAction::Drain);
    assert_eq!(leave.drained(4), LeaveAction::SendLeave);
    assert_eq!(
        leave.left(NOW + 1),
        LeaveAction::Forward(forwarding_grace(4))
    );
    assert_eq!(leave.forwarded(), LeaveAction::Finish);
    assert_eq!(leave.phase, LeavePhase::Gone);
}

#[test]
fn a_leave_without_a_handoff_still_tells_discovery() {
    for roster in [
        None,
        Some((vec![member("peer")], 1)),
        Some((vec![member("leaver")], 1)),
    ] {
        let mut leave = Decommission::begin(&mut None, 5, NOW);
        assert_eq!(leave.poll(&None, NOW), LeaveAction::FetchRoster);
        let mut leaving = None;
        assert_eq!(
            leave.fetched(roster, "leaver", &mut leaving),
            LeaveAction::SendLeave
        );
        assert!(leaving.is_none());
        assert_eq!(leave.left(NOW), LeaveAction::Finish);
    }

    let mut leave = Decommission::begin(&mut None, 5, NOW);
    leave.poll(&None, NOW);
    let mut leaving = None;
    leave.fetched(
        Some((vec![member("leaver"), member("peer")], 1)),
        "leaver",
        &mut leaving,
    );
    assert_eq!(leave.listed(false), LeaveAction::SendLeave);
    assert!(leaving.is_some());
    assert_eq!(leave.left(NOW), LeaveAction::Finish);
    assert_eq!(leave.phase, LeavePhase::Gone);
}

#[test]
fn a_dropped_roster_member_triggers_rereplication_to_exactly_the_right_keys() {
    let before = HashRing::new(names(&["self", "dead", "peer-a", "peer-b"]));
    let after = HashRing::new(names(&["self", "peer-a", "peer-b"]));
    let mut addresses = Directory::new();
    let mut tokens = Directory::new();
    for name in ["peer-a", "peer-b"] {
        addresses.insert(name.to_string(), format!("addr-{name}"));
        // Nothing authorizes a copy for peer-b.
        if name == "peer-a" {
            tokens.insert(name.to_string(), format!("tok-{name}"));
        }
    }
    let all = keys(80);
    let mut run = CopyRun::new(
        "self".to_string(),
        2,
        before.clone(),
        after.clone(),
        addresses,
        tokens,
        all.clone(),
    );
    let mut sent = Vec::new();
    loop {
        match run.next_key(false) {
            CopyStep::NextKey => continue,
            CopyStep::Finished => break,
            step => assert_eq!(step, CopyStep::Peek),
        }
        assert_eq!(run.peeked(true), CopyStep::NextTarget);
        loop {
            match run.next_target() {
                CopyStep::NextTarget => continue,
                CopyStep::Send => {
                    let target = run.target().to_string();
                    let (addr, token) = run.destination().unwrap();
                    assert_eq!(addr, format!("addr-{target}"));
                    assert_eq!(token, format!("tok-{target}"));
                    let current = run.current().clone();
                    let write = run.write(b"value", Some(1)).unwrap();
                    assert_eq!(
                        entry(write),
                        (
                            current.clone(),
                            b"value".to_vec(),
                            Some(1),
                            true,
                            token.to_string()
                        )
                    );
                    sent.push((current, target));
                    run.copied(true);
                }
                step => {
                    assert_eq!(step, CopyStep::NextKey);
                    break;
                }
            }
        }
    }
    let mut expected = Vec::new();
    let mut missed = 0;
    for key in &all {
        for target in rereplication_targets(&before, &after, key, 2, "self") {
            if target == "peer-a" {
                expected.push((key.clone(), target));
            } else {
                missed += 1;
            }
        }
    }
    assert!(!expected.is_empty() && missed > 0);
    assert_eq!(sent, expected);
    assert_eq!(run.sent(), expected.len() as u64);
    assert_eq!(run.skipped(), missed);
}

#[test]
fn a_superseding_trigger_chains_behind_the_run_it_displaces_instead_of_racing_it() {
    let first = ActiveRereplication { id: 1 };
    let second = ActiveRereplication { id: 2 };
    let mut runs = Rereplications::new();
    assert_eq!(runs.begin(first), None);
    assert!(runs.is_busy() && runs.is_running(first) && !runs.is_stopped(first));

    // The second run finds the first one's state, asks it to stop, and has the
    // slot before it waits.
    assert_eq!(runs.begin(second), Some(first));
    assert!(runs.is_stopped(first));
    assert!(!runs.is_stopped(second));
    assert!(ring_change_waits(runs.is_running(first), NOW, NOW + 1));
    assert!(!ring_change_waits(runs.is_running(first), NOW + 1, NOW + 1));

    // The first one ends at its next key, and the slot stays the second one's.
    let mut copy = CopyRun::new(
        "n1".to_string(),
        2,
        HashRing::new(names(&["n1", "n2"])),
        HashRing::new(names(&["n1", "n2", "n3"])),
        Directory::new(),
        Directory::new(),
        keys(5),
    );
    assert_eq!(copy.next_key(runs.is_stopped(first)), CopyStep::Finished);
    runs.finish(first);
    assert!(!ring_change_waits(runs.is_running(first), NOW, NOW + 1));
    assert!(runs.is_busy() && runs.is_running(second) && !runs.is_stopped(second));

    runs.finish(second);
    assert!(!runs.is_busy() && !runs.is_running(second));
}

#[test]
fn a_run_that_ends_leaves_the_slot_of_a_later_one_alone() {
    let first = ActiveRereplication { id: 1 };
    let second = ActiveRereplication { id: 2 };
    let mut slot = Some(second);
    finish_rereplication(&mut slot, first);
    assert_eq!(slot, Some(second));
    finish_rereplication(&mut slot, second);
    assert_eq!(slot, None);
}

#[test]
fn forward_with_retries_recovers_from_a_single_transient_failure() {
    assert_eq!(after_forward_attempt(1, false), RetryAction::Retry);
    assert_eq!(after_forward_attempt(2, true), RetryAction::Done);
    assert_eq!(after_forward_attempt(3, false), RetryAction::GiveUp);

    let mut transfer = Transfer::new(true);
    assert_eq!(transfer.next(), TransferAction::Send);
    transfer.sent(false);
    assert_eq!(transfer.next(), TransferAction::Connect);
    transfer.connected(false);
    assert_eq!(transfer.next(), TransferAction::Connect);
    transfer.connected(true);
    assert_eq!(transfer.next(), TransferAction::Send);
    assert_eq!(transfer.next_unless_stopped(true), TransferAction::GiveUp);
    transfer.sent(true);
    assert_eq!(transfer.next(), TransferAction::Delivered);
    assert_eq!(
        transfer.next_unless_stopped(true),
        TransferAction::Delivered
    );

    let mut hopeless = Transfer::new(false);
    for _ in 0..3 {
        hopeless.connected(false);
    }
    assert_eq!(hopeless.next(), TransferAction::GiveUp);
    assert!(!hopeless.open);
}

#[test]
fn a_shared_connection_is_kept_after_an_acknowledgement_only() {
    assert!(keeps_connection(ForwardOutcome::Acknowledged));
    assert!(!keeps_connection(ForwardOutcome::Failed));
    assert!(!keeps_connection(ForwardOutcome::TimedOut));

    let name = key(b"k");
    let delete = ForwardedWrite::Delete { key: &name };
    assert_eq!(
        delete.timed_out_message(),
        "forwarding the delete to the joining node timed out"
    );
    assert_eq!(delete.transfer_timed_out_message(), "outbound delete timed out");
}

#[test]
fn a_forward_queued_behind_a_full_channel_waits_until_too_many_do() {
    let mut waiting = 0;
    assert_eq!(
        offer_forward(QueueReply::Taken, &mut waiting),
        QueueAction::Queued
    );
    assert_eq!(
        offer_forward(QueueReply::Closed, &mut waiting),
        QueueAction::DropClosed
    );
    for _ in 0..MAX_PENDING_FORWARD_WAITERS {
        assert_eq!(
            offer_forward(QueueReply::Full, &mut waiting),
            QueueAction::Wait
        );
    }
    assert_eq!(
        offer_forward(QueueReply::Full, &mut waiting),
        QueueAction::DropFull
    );
    let mut over = MAX_PENDING_FORWARD_WAITERS + 7;
    assert_eq!(
        offer_forward(QueueReply::Full, &mut over),
        QueueAction::DropFull
    );
    assert_eq!(over, MAX_PENDING_FORWARD_WAITERS + 7);
    assert_eq!(waiting, MAX_PENDING_FORWARD_WAITERS);
}
