//! The handoff of keys to a node that joins: the slot that at most one handoff
//! holds at a time, and how it is reserved, finished, abandoned and expired.
use vstd::prelude::*;

use crate::cluster::membership_view;
use crate::cluster::share_membership;
use crate::cluster::Membership;
use crate::cluster::MembershipView;
use crate::cluster::SharedRing;
use crate::cluster::SharedRingView;
use crate::key::copy_keys;
use crate::key::key_views;
use crate::key::Key;
use crate::key::KeyView;
use crate::limits::FORWARDING_GRACE_PER_ENTRY;
use crate::limits::forwarding_grace;
use crate::limits::grace_after;
use crate::limits::law_grace_grows_with_the_handoff;
use crate::message::ClearScope;
use crate::message::ClearScopeView;
use crate::ring::joined_by;
use crate::ring::lemma_without_repeats;
use crate::ring::owns;
use crate::ring::HashRing;
use crate::text::copy_texts;
use crate::text::lemma_sorted_has_no_duplicates;
use crate::text::same_text;
use crate::text::sorted_texts;
use crate::text::strictly_sorted;
use crate::text::text_views;

verus! {

/// A handoff to a joining node, from its request to the end of its forwarding
/// window.
#[derive(Debug)]
pub struct ActiveMigration {
    pub joining_name: String,
    pub joining_addr: String,
    /// The joining node's own membership token.
    pub joining_token: String,
    /// The nodes once the join is through.
    pub after_ring: SharedRing,
    pub replication: usize,
    /// When this node's share was done.
    pub completed_at: Option<u128>,
    /// How long writes are forwarded after that.
    pub forwarding_grace: u128,
    /// The number of entries the request was acknowledged with.
    pub acked_entries: Option<usize>,
    /// Whether the transfer was asked to stop.
    pub abort_requested: bool,
    /// The copies that are dead once the join is through.
    pub marked_keys: Vec<Key>,
    /// Whether discovery has listed the joining node.
    pub confirmed: bool,
    /// What the node believed of the cluster before its share was done.
    pub pre_completion_ring: Option<Membership>,
    /// Clears that the joining node has still to hear of, in order.
    pub pending_clears: Vec<ClearScope>,
}

#[verifier::ext_equal]
pub struct SlotView {
    pub joining_name: Seq<char>,
    pub joining_addr: Seq<char>,
    pub joining_token: Seq<char>,
    pub after_ring: SharedRingView,
    pub replication: nat,
    pub completed_at: Option<u128>,
    pub forwarding_grace: u128,
    pub acked_entries: Option<usize>,
    pub abort_requested: bool,
    pub marked_keys: Seq<KeyView>,
    pub confirmed: bool,
    pub pre_completion_ring: Option<MembershipView>,
    pub pending_clears: Seq<ClearScopeView>,
}

/// The views of a list of clears.
pub open spec fn scope_views(scopes: Seq<ClearScope>) -> Seq<ClearScopeView> {
    scopes.map_values(|scope: ClearScope| scope@)
}

impl View for ActiveMigration {
    type V = SlotView;

    open spec fn view(&self) -> SlotView {
        SlotView {
            joining_name: self.joining_name@,
            joining_addr: self.joining_addr@,
            joining_token: self.joining_token@,
            after_ring: self.after_ring@,
            replication: self.replication as nat,
            completed_at: self.completed_at,
            forwarding_grace: self.forwarding_grace,
            acked_entries: self.acked_entries,
            abort_requested: self.abort_requested,
            marked_keys: key_views(self.marked_keys@),
            confirmed: self.confirmed,
            pre_completion_ring: membership_view(self.pre_completion_ring),
            pending_clears: scope_views(self.pending_clears@),
        }
    }
}

/// The view of a slot that may be free.
pub open spec fn slot_view(slot: Option<ActiveMigration>) -> Option<SlotView> {
    match slot {
        Some(active) => Some(active@),
        None => None,
    }
}

/// The time from `start` to `now`; none if `now` comes first.
pub open spec fn elapsed(start: u128, now: u128) -> nat {
    if now >= start {
        (now - start) as nat
    } else {
        0
    }
}

impl SlotView {
    /// Whether writes are forwarded: until this node's share is done, and for
    /// the grace after that.
    pub open spec fn forwards(self, now: u128) -> bool {
        match self.completed_at {
            None => true,
            Some(at) => elapsed(at, now) < self.forwarding_grace,
        }
    }

    /// Whether nothing is left of the handoff: the join is through and the
    /// grace is over. A slot whose join is undecided outlives its grace, since
    /// it holds the marks.
    pub open spec fn is_over(self, now: u128) -> bool {
        self.confirmed && !self.forwards(now)
    }

    /// Whether the joining node owns a key once the join is through.
    pub open spec fn joiner_owns(self, key: KeyView) -> bool {
        owns(self.after_ring.nodes, key, self.joining_name, self.replication)
    }
}

/// A slot once what is over has been cleared from it.
pub open spec fn live_slot(slot: Option<SlotView>, now: u128) -> Option<SlotView> {
    match slot {
        Some(active) => if active.is_over(now) {
            None
        } else {
            slot
        },
        None => None,
    }
}

impl ActiveMigration {
    pub fn forwarding_open(&self, now: u128) -> (open: bool)
        ensures
            open == self@.forwards(now),
    {
        match self.completed_at {
            None => true,
            Some(at) => now.saturating_sub(at) < self.forwarding_grace,
        }
    }

    pub fn expired(&self, now: u128) -> (expired: bool)
        ensures
            expired == self@.is_over(now),
    {
        self.confirmed && !self.forwarding_open(now)
    }
}

/// Frees a slot whose handoff is over.
pub fn expire_slot(slot: &mut Option<ActiveMigration>, now: u128)
    ensures
        slot_view(*final(slot)) == live_slot(slot_view(*old(slot)), now),
        *final(slot) is Some ==> *final(slot) == *old(slot),
{
    let over = match slot.as_ref() {
        Some(active) => active.expired(now),
        None => false,
    };
    if over {
        *slot = None;
    }
}

/// Who holds a slot, until the handoff is done or given up.
#[derive(Debug)]
pub struct MigrationGuard {
    completed: bool,
}

/// What a request for a handoff finds.
#[derive(Debug)]
pub enum MigrationOutcome {
    /// The slot was free and is now held. The copies to restore were marked for
    /// a join that never came about.
    New { guard: MigrationGuard, restore: Vec<Key> },
    /// The same request was acknowledged before, with this many entries.
    DuplicateAcked(usize),
    /// Another handoff is running, or the same one has not been acknowledged.
    Conflict,
}

/// The slot as a fresh handoff holds it.
pub open spec fn fresh_slot(
    joining_name: Seq<char>,
    joining_addr: Seq<char>,
    joining_token: Seq<char>,
    after_ring: SharedRingView,
    replication: nat,
) -> SlotView {
    SlotView {
        joining_name,
        joining_addr,
        joining_token,
        after_ring,
        replication,
        completed_at: None,
        forwarding_grace: 0,
        acked_entries: None,
        abort_requested: false,
        marked_keys: Seq::empty(),
        confirmed: false,
        pre_completion_ring: None,
        pending_clears: Seq::empty(),
    }
}

/// The names of a roster.
pub open spec fn roster_names(joined: Seq<(String, String)>) -> Seq<Seq<char>> {
    joined.map_values(|member: (String, String)| member.0@)
}

/// Whether a handoff whose share is done came to nothing: its join was never
/// confirmed, and the roster of the next one does not list its node.
pub open spec fn was_abandoned(slot: SlotView, roster: Seq<Seq<char>>) -> bool {
    !slot.confirmed && !roster.contains(slot.joining_name)
}

/// What a request for a handoff to `joining_name` finds in a slot that is not
/// over.
pub enum Found {
    /// Nothing, or a handoff that is done; the copies to restore.
    Free { restore: Seq<KeyView> },
    Acked { entries: usize },
    Busy,
}

pub open spec fn found_in(
    slot: Option<SlotView>,
    joining_name: Seq<char>,
    roster: Seq<Seq<char>>,
) -> Found {
    match slot {
        None => Found::Free { restore: Seq::empty() },
        Some(active) => if active.joining_name == joining_name {
            match active.acked_entries {
                Some(entries) => Found::Acked { entries },
                None => Found::Busy,
            }
        } else if active.completed_at is None {
            Found::Busy
        } else if was_abandoned(active, roster) {
            Found::Free { restore: active.marked_keys }
        } else {
            Found::Free { restore: Seq::empty() }
        },
    }
}

/// What the node believes of the cluster once a join that it had taken for
/// granted came to nothing: what it believed before, unless it has learned of a
/// newer ring since.
pub open spec fn reverted(
    known: Option<MembershipView>,
    abandoned: SlotView,
) -> Option<MembershipView> {
    match known {
        Some(current) => if current.ring.id == abandoned.after_ring.id {
            abandoned.pre_completion_ring
        } else {
            known
        },
        None => known,
    }
}

/// Whether a list of pairs names `name`.
fn roster_lists(joined: &Vec<(String, String)>, name: &str) -> (found: bool)
    ensures
        found == roster_names(joined@).contains(name@),
{
    let mut index: usize = 0;
    while index < joined.len()
        invariant
            index <= joined.len(),
            forall|i: int| 0 <= i < index ==> (#[trigger] joined@[i]).0@ != name@,
        decreases joined.len() - index,
    {
        if same_text(joined[index].0.as_str(), name) {
            assert(roster_names(joined@)[index as int] == name@);
            return true;
        }
        index += 1;
    }
    assert(!roster_names(joined@).contains(name@)) by {
        if roster_names(joined@).contains(name@) {
            let i = roster_names(joined@).index_of(name@);
            assert(joined@[i].0@ == name@);
        }
    }
    false
}

impl MigrationGuard {
    /// Whether the handoff is done, so that the slot stays.
    pub closed spec fn is_completed(self) -> bool {
        self.completed
    }

    /// Reserves the slot for a handoff to `joining_name`. `joined` lists the
    /// nodes that have joined, with their addresses.
    pub fn new(
        slot: &mut Option<ActiveMigration>,
        joining_name: String,
        joining_addr: String,
        joining_token: String,
        after_ring: SharedRing,
        replication: usize,
        joined: &Vec<(String, String)>,
        known_ring: &mut Option<Membership>,
        now: u128,
    ) -> (outcome: MigrationOutcome)
        ensures
            ({
                let before = live_slot(slot_view(*old(slot)), now);
                let roster = roster_names(joined@);
                match found_in(before, joining_name@, roster) {
                    Found::Free { restore } => {
                        &&& outcome matches MigrationOutcome::New { guard, restore: keys }
                        &&& !guard.is_completed()
                        &&& key_views(keys@) == restore
                        &&& slot_view(*final(slot)) == Some(
                            fresh_slot(
                                joining_name@,
                                joining_addr@,
                                joining_token@,
                                after_ring@,
                                replication as nat,
                            ),
                        )
                        &&& membership_view(*final(known_ring)) == match before {
                            Some(previous) => if was_abandoned(previous, roster) {
                                reverted(membership_view(*old(known_ring)), previous)
                            } else {
                                membership_view(*old(known_ring))
                            },
                            None => membership_view(*old(known_ring)),
                        }
                    },
                    Found::Acked { entries } => {
                        &&& outcome == MigrationOutcome::DuplicateAcked(entries)
                        &&& *final(slot) == *old(slot)
                        &&& *final(known_ring) == *old(known_ring)
                    },
                    Found::Busy => {
                        &&& outcome == MigrationOutcome::Conflict
                        &&& *final(slot) == *old(slot)
                        &&& *final(known_ring) == *old(known_ring)
                    },
                }
            }),
    {
        expire_slot(slot, now);
        let mut restore: Vec<Key> = Vec::new();
        assert(key_views(restore@) =~= Seq::empty());
        match slot.as_ref() {
            Some(existing) => {
                if same_text(existing.joining_name.as_str(), joining_name.as_str()) {
                    return match existing.acked_entries {
                        Some(entries) => MigrationOutcome::DuplicateAcked(entries),
                        None => MigrationOutcome::Conflict,
                    };
                }
                if existing.completed_at.is_none() {
                    return MigrationOutcome::Conflict;
                }
                if !existing.confirmed && !roster_lists(joined, existing.joining_name.as_str()) {
                    restore = copy_keys(&existing.marked_keys);
                    let reverts = match known_ring.as_ref() {
                        Some(current) => current.ring.id == existing.after_ring.id,
                        None => false,
                    };
                    if reverts {
                        *known_ring = share_membership(&existing.pre_completion_ring);
                    }
                }
            },
            None => {},
        }
        let fresh = ActiveMigration {
            joining_name,
            joining_addr,
            joining_token,
            after_ring,
            replication,
            completed_at: None,
            forwarding_grace: 0,
            acked_entries: None,
            abort_requested: false,
            marked_keys: Vec::new(),
            confirmed: false,
            pre_completion_ring: None,
            pending_clears: Vec::new(),
        };
        assert(key_views(fresh.marked_keys@) =~= Seq::empty());
        assert(scope_views(fresh.pending_clears@) =~= Seq::empty());
        *slot = Some(fresh);
        MigrationOutcome::New { guard: MigrationGuard { completed: false }, restore }
    }

    /// Notes the number of entries the request is acknowledged with.
    pub fn ack(&self, slot: &mut Option<ActiveMigration>, entries: usize)
        ensures
            slot_view(*final(slot)) == match slot_view(*old(slot)) {
                Some(active) => Some(SlotView { acked_entries: Some(entries), ..active }),
                None => None,
            },
    {
        match slot.as_mut() {
            Some(active) => {
                active.acked_entries = Some(entries);
            },
            None => {},
        }
    }

    /// Notes that this node's share is done: writes are forwarded for a grace
    /// that grows with the entries sent, and the marks and the ring believed
    /// before are kept in case the join comes to nothing.
    pub fn completed(
        &mut self,
        slot: &mut Option<ActiveMigration>,
        entries_sent: usize,
        marked_keys: Vec<Key>,
        pre_completion_ring: Option<Membership>,
        now: u128,
    )
        ensures
            final(self).is_completed(),
            slot_view(*final(slot)) == match slot_view(*old(slot)) {
                Some(active) => Some(
                    SlotView {
                        completed_at: Some(now),
                        forwarding_grace: grace_after(entries_sent as nat) as u128,
                        marked_keys: key_views(marked_keys@),
                        pre_completion_ring: membership_view(pre_completion_ring),
                        ..active
                    },
                ),
                None => None,
            },
    {
        match slot.as_mut() {
            Some(active) => {
                active.completed_at = Some(now);
                active.forwarding_grace = forwarding_grace(entries_sent);
                active.marked_keys = marked_keys;
                active.pre_completion_ring = pre_completion_ring;
            },
            None => {},
        }
        self.completed = true;
    }

    /// Lets go of the slot; it is freed unless the handoff is done.
    pub fn release(self, slot: &mut Option<ActiveMigration>)
        ensures
            *final(slot) == if self.is_completed() {
                *old(slot)
            } else {
                None
            },
    {
        if !self.completed {
            *slot = None;
        }
    }
}

/// The nodes before and after a join: those of the roster and this node, and
/// the joining node besides. Each is listed once, in order.
pub fn migration_rings(
    self_name: &str,
    joining_name: &str,
    joined: &Vec<(String, String)>,
) -> (rings: (HashRing, HashRing))
    ensures
        strictly_sorted(rings.0@),
        strictly_sorted(rings.1@),
        forall|name: Seq<char>| #[trigger]
            rings.0@.contains(name) <==> (roster_names(joined@).contains(name) || name
                == self_name@),
        forall|name: Seq<char>| #[trigger]
            rings.1@.contains(name) <==> (rings.0@.contains(name) || name == joining_name@),
        !rings.0@.contains(joining_name@) ==> joined_by(rings.0@, rings.1@, joining_name@),
{
    let mut members: Vec<String> = Vec::new();
    let mut index: usize = 0;
    while index < joined.len()
        invariant
            index <= joined.len(),
            text_views(members@) == roster_names(joined@).take(index as int),
        decreases joined.len() - index,
    {
        let ghost listed = members@;
        members.push(joined[index].0.clone());
        assert(text_views(members@) =~= text_views(listed).push(joined@[index as int].0@));
        assert(roster_names(joined@).take(index + 1) =~= roster_names(joined@).take(
            index as int,
        ).push(roster_names(joined@)[index as int]));
        index += 1;
    }
    assert(roster_names(joined@).take(joined@.len() as int) =~= roster_names(joined@));
    let ghost roster = text_views(members@);
    members.push(self_name.to_owned());
    assert(text_views(members@) =~= roster.push(self_name@));
    let before_members = sorted_texts(&members);
    let ghost before = text_views(before_members@);
    assert forall|name: Seq<char>| #[trigger] before.contains(name) <==> (roster.contains(name)
        || name == self_name@) by {
        lemma_contains_push(roster, self_name@, name);
        assert(before.contains(name) <==> text_views(members@).contains(name));
    }
    let mut after_list = copy_texts(&before_members);
    after_list.push(joining_name.to_owned());
    assert(text_views(after_list@) =~= before.push(joining_name@));
    let after_members = sorted_texts(&after_list);
    let ghost after = text_views(after_members@);
    assert forall|name: Seq<char>| #[trigger] after.contains(name) <==> (before.contains(name)
        || name == joining_name@) by {
        lemma_contains_push(before, joining_name@, name);
        assert(after.contains(name) <==> text_views(after_list@).contains(name));
    }
    proof {
        lemma_sorted_has_no_duplicates(before);
        lemma_sorted_has_no_duplicates(after);
        lemma_without_repeats(before);
        lemma_without_repeats(after);
    }
    (HashRing::new(before_members), HashRing::new(after_members))
}

pub proof fn lemma_contains_push(texts: Seq<Seq<char>>, added: Seq<char>, text: Seq<char>)
    ensures
        texts.push(added).contains(text) <==> (texts.contains(text) || text == added),
{
    let more = texts.push(added);
    if texts.contains(text) {
        assert(more[texts.index_of(text)] == text);
    }
    if text == added {
        assert(more[texts.len() as int] == text);
    }
    if more.contains(text) {
        let i = more.index_of(text);
        if i < texts.len() {
            assert(texts[i] == text);
        }
    }
}

/// Whether this node owes the joining node a key: it owned the key, and the
/// joining node comes to own it.
pub open spec fn owed(
    key: KeyView,
    before: Seq<Seq<char>>,
    after: Seq<Seq<char>>,
    self_name: Seq<char>,
    joining_name: Seq<char>,
    replication: nat,
) -> bool {
    owns(after, key, joining_name, replication) && owns(before, key, self_name, replication)
}

/// The keys of a list that are owed.
pub open spec fn owed_keys(
    keys: Seq<KeyView>,
    before: Seq<Seq<char>>,
    after: Seq<Seq<char>>,
    self_name: Seq<char>,
    joining_name: Seq<char>,
    replication: nat,
) -> Seq<KeyView> {
    keys.filter(|key: KeyView| owed(key, before, after, self_name, joining_name, replication))
}

/// How many of the keys this node owes the joining node.
pub fn entries_to_send_count(
    keys: &Vec<Key>,
    before_ring: &HashRing,
    after_ring: &HashRing,
    self_name: &str,
    joining_name: &str,
    replication: usize,
) -> (count: usize)
    ensures
        count == owed_keys(
            key_views(keys@),
            before_ring@,
            after_ring@,
            self_name@,
            joining_name@,
            replication as nat,
        ).len(),
{
    let ghost views = key_views(keys@);
    let ghost wanted = |key: KeyView|
        owed(key, before_ring@, after_ring@, self_name@, joining_name@, replication as nat);
    let mut count: usize = 0;
    let mut index: usize = 0;
    assert(views.take(0).filter(wanted) =~= Seq::empty()) by {
        reveal(Seq::filter);
    }
    while index < keys.len()
        invariant
            index <= keys.len(),
            count <= index,
            views == key_views(keys@),
            wanted == (|key: KeyView|
                owed(
                    key,
                    before_ring@,
                    after_ring@,
                    self_name@,
                    joining_name@,
                    replication as nat,
                )),
            count == views.take(index as int).filter(wanted).len(),
        decreases keys.len() - index,
    {
        proof {
            assert(views.take(index + 1).drop_last() =~= views.take(index as int));
            assert(views.take(index + 1).last() == keys@[index as int]@);
            reveal(Seq::filter);
        }
        if after_ring.is_owner(&keys[index], joining_name, replication) && before_ring.is_owner(
            &keys[index],
            self_name,
            replication,
        ) {
            count += 1;
        }
        index += 1;
    }
    assert(views.take(keys@.len() as int) =~= views);
    count
}

/// Writes are forwarded from the start of a handoff until its grace, counted
/// from the time this node's share was done, has run out; without a grace they
/// end with the share.
pub proof fn law_forwarding_ends_with_the_grace(slot: SlotView, now: u128)
    ensures
        slot.completed_at is None ==> slot.forwards(now),
        slot.completed_at matches Some(at) ==> (slot.forwards(now) <==> slot.forwarding_grace > 0
            && now < at + slot.forwarding_grace),
{
}

/// A slot is freed by time alone just when its join is confirmed and its grace
/// has run out; else it stays as it is.
pub proof fn law_slot_outlives_its_grace_until_confirmed(slot: SlotView, now: u128)
    ensures
        live_slot(None, now) is None,
        live_slot(Some(slot), now) is None || live_slot(Some(slot), now) == Some(slot),
        live_slot(Some(slot), now) is None <==> slot.confirmed && (slot.completed_at matches Some(
            at,
        ) && (slot.forwarding_grace == 0 || now >= at + slot.forwarding_grace)),
{
}

/// Once a slot is free it stays free, and one that is over is over ever after.
pub proof fn law_slot_stays_over(slot: Option<SlotView>, now: u128, later: u128)
    requires
        now <= later,
        live_slot(slot, now) is None,
    ensures
        live_slot(slot, later) is None,
{
}

/// A handoff to another node is refused while one is being transferred, and only
/// then; the same handoff asked for again gets the number of entries it was
/// acknowledged with, or is refused as long as there is none. Copies are
/// restored just for a handoff that is done, was not confirmed, and whose node
/// the roster does not list.
pub proof fn law_one_handoff_at_a_time(
    slot: SlotView,
    joining_name: Seq<char>,
    roster: Seq<Seq<char>>,
)
    ensures
        found_in(None, joining_name, roster) == (Found::Free { restore: Seq::empty() }),
        slot.joining_name == joining_name ==> {
            &&& !(found_in(Some(slot), joining_name, roster) is Free)
            &&& slot.acked_entries is None ==> found_in(Some(slot), joining_name, roster) is Busy
            &&& slot.acked_entries matches Some(entries) ==> found_in(
                Some(slot),
                joining_name,
                roster,
            ) == (Found::Acked { entries })
        },
        slot.joining_name != joining_name ==> {
            &&& found_in(Some(slot), joining_name, roster) is Busy <==> slot.completed_at is None
            &&& slot.completed_at is Some ==> found_in(Some(slot), joining_name, roster) == (
            Found::Free {
                restore: if slot.confirmed || roster.contains(slot.joining_name) {
                    Seq::empty()
                } else {
                    slot.marked_keys
                },
            })
        },
{
}

/// A handoff begins with nothing done: its window is open for as long as it
/// transfers, nothing is acknowledged, marked, confirmed or waiting, and it goes
/// to the node that was named, at its address and with its token.
pub proof fn law_handoff_begins_with_nothing_done(
    joining_name: Seq<char>,
    joining_addr: Seq<char>,
    joining_token: Seq<char>,
    after_ring: SharedRingView,
    replication: nat,
    key: KeyView,
    now: u128,
)
    ensures
        ({
            let slot = fresh_slot(
                joining_name,
                joining_addr,
                joining_token,
                after_ring,
                replication,
            );
            &&& slot.joining_name == joining_name
            &&& slot.joining_addr == joining_addr
            &&& slot.joining_token == joining_token
            &&& slot.after_ring == after_ring
            &&& slot.replication == replication
            &&& slot.forwards(now) && !slot.is_over(now)
            &&& slot.completed_at is None
            &&& slot.acked_entries is None
            &&& !slot.abort_requested && !slot.confirmed
            &&& slot.marked_keys.len() == 0 && slot.pending_clears.len() == 0
            &&& slot.pre_completion_ring is None
            &&& slot.joiner_owns(key) <==> owns(after_ring.nodes, key, joining_name, replication)
        }),
{
}

/// What a handoff that came to nothing leaves believed: what was believed before
/// it if nothing newer was learned, told by the number of the ring, and what is
/// believed now else.
pub proof fn law_belief_reverts_only_from_the_abandoned_ring(
    known: Option<MembershipView>,
    slot: SlotView,
)
    ensures
        (known matches Some(current) && current.ring.id == slot.after_ring.id) ==> reverted(
            known,
            slot,
        ) == slot.pre_completion_ring,
        (known matches Some(current) ==> current.ring.id != slot.after_ring.id) ==> reverted(
            known,
            slot,
        ) == known,
{
}

/// A key is owed just when this node owned it before the join and the joining
/// node owns it after: one more such key in a list is one more that is owed,
/// behind the others, and any other key makes no difference.
pub proof fn law_owed_keys_are_those_that_move(
    keys: Seq<KeyView>,
    before: Seq<Seq<char>>,
    after: Seq<Seq<char>>,
    self_name: Seq<char>,
    joining_name: Seq<char>,
    replication: nat,
    key: KeyView,
)
    ensures
        owed_keys(Seq::empty(), before, after, self_name, joining_name, replication).len() == 0,
        owed_keys(keys.push(key), before, after, self_name, joining_name, replication) == if owns(
            before,
            key,
            self_name,
            replication,
        ) && owns(after, key, joining_name, replication) {
            owed_keys(keys, before, after, self_name, joining_name, replication).push(key)
        } else {
            owed_keys(keys, before, after, self_name, joining_name, replication)
        },
{
    reveal(Seq::filter);
    assert(keys.push(key).drop_last() =~= keys);
}

/// A slot is viewed whole.
pub proof fn law_slot_is_viewed_whole(active: ActiveMigration, index: int)
    ensures
        slot_view(None) is None,
        slot_view(Some(active)) == Some(active@),
        active@.joining_name == active.joining_name@,
        active@.joining_addr == active.joining_addr@,
        active@.joining_token == active.joining_token@,
        active@.after_ring == active.after_ring@,
        active@.replication == active.replication,
        active@.completed_at == active.completed_at,
        active@.forwarding_grace == active.forwarding_grace,
        active@.acked_entries == active.acked_entries,
        active@.abort_requested == active.abort_requested,
        active@.confirmed == active.confirmed,
        active@.pre_completion_ring == membership_view(active.pre_completion_ring),
        active@.marked_keys.len() == active.marked_keys@.len(),
        active@.pending_clears.len() == active.pending_clears@.len(),
        0 <= index < active.marked_keys@.len() ==> active@.marked_keys[index]
            == active.marked_keys@[index]@,
        0 <= index < active.pending_clears@.len() ==> active@.pending_clears[index]
            == active.pending_clears@[index]@,
{
}

/// The names of a roster are those of its pairs, in order.
pub proof fn law_roster_names_stand_in_order(joined: Seq<(String, String)>, index: int)
    requires
        0 <= index < joined.len(),
    ensures
        roster_names(joined).len() == joined.len(),
        roster_names(joined)[index] == joined[index].0@,
{
}

/// A slot that is given back is freed just if its handoff is not done: one that
/// is done keeps it for its grace.
pub proof fn law_unfinished_handoff_frees_its_slot(
    guard: MigrationGuard,
    slot: &mut Option<ActiveMigration>,
)
    requires
        call_ensures(MigrationGuard::release, (guard, slot), ()),
    ensures
        !guard.is_completed() ==> *final(slot) is None,
        guard.is_completed() ==> *final(slot) == *old(slot),
{
}

/// From the time that a handoff is done its window stays open for the grace of
/// what was sent, a minute at least; its marks and the ring believed before are
/// kept, and it is not confirmed by that.
pub proof fn law_finished_handoff_keeps_forwarding(
    guard: &mut MigrationGuard,
    slot: &mut Option<ActiveMigration>,
    entries_sent: usize,
    marked_keys: Vec<Key>,
    pre_completion_ring: Option<Membership>,
    now: u128,
    later: u128,
)
    requires
        call_ensures(
            MigrationGuard::completed,
            (guard, slot, entries_sent, marked_keys, pre_completion_ring, now),
            (),
        ),
        *old(slot) is Some,
        now <= later,
    ensures
        final(guard).is_completed(),
        slot_view(*final(slot)) matches Some(after) && after.completed_at == Some(now)
            && after.marked_keys == key_views(marked_keys@) && after.pre_completion_ring
            == membership_view(pre_completion_ring) && (after.forwards(later) <==> later < now
            + grace_after(entries_sent as nat)) && (later < now + 60_000_000_000 ==> after.forwards(
            later,
        )) && after.confirmed == slot_view(*old(slot))->0.confirmed && after.joining_name
            == slot_view(*old(slot))->0.joining_name && after.pending_clears == slot_view(
            *old(slot),
        )->0.pending_clears,
{
    law_grace_grows_with_the_handoff(0, entries_sent as nat);
    lemma_grace_fits(entries_sent as nat);
}

proof fn lemma_grace_fits(entries: nat)
    ensures
        0 < grace_after(entries) <= u128::MAX,
{
    let counted: nat = if entries <= u32::MAX {
        entries
    } else {
        u32::MAX as nat
    };
    assert(FORWARDING_GRACE_PER_ENTRY as nat * counted <= 5_000_000 * 4_294_967_295)
        by (nonlinear_arith)
        requires
            counted <= 4_294_967_295,
            FORWARDING_GRACE_PER_ENTRY == 5_000_000,
    ;
}

} // verus!
