//! How a node leaves the cluster: it hands each of its keys over to the node
//! that comes to own it, tells discovery, and goes on forwarding writes for a
//! while.
use vstd::prelude::*;

use crate::cluster::entry_addresses;
use crate::cluster::entry_names;
use crate::cluster::entry_tokens;
use crate::cluster::entry_views;
use crate::cluster::law_listed_names_can_be_reached;
use crate::cluster::roster_directories;
use crate::cluster::roster_member_names;
use crate::cluster::Directory;
use crate::cluster::RosterEntry;
use crate::cluster::RosterEntryView;
use crate::forward::Channel;
use crate::forward::ChannelView;
use crate::forward::ForwardTarget;
use crate::forward::ForwardedWrite;
use crate::forward::TargetView;
use crate::forward::WriteView;
use crate::key::key_views;
use crate::key::Key;
use crate::key::KeyView;
use crate::limits::forwarding_grace;
use crate::limits::grace_after;
use crate::migration::slot_view;
use crate::migration::ActiveMigration;
use crate::migration::SlotView;
use crate::ring::joined_by;
use crate::ring::law_best_ranked_node_is_promoted_first;
use crate::ring::law_leave_promotes_one_node;
use crate::ring::lemma_not_among;
use crate::ring::lemma_without_repeats;
use crate::ring::not_among;
use crate::ring::owners_of;
use crate::ring::owns;
use crate::ring::promoted;
use crate::ring::promoted_owners;
use crate::ring::ranking;
use crate::ring::without_repeats;
use crate::ring::HashRing;
use crate::text::contains_text;
use crate::text::same_text;
use crate::text::text_views;

verus! {

/// What a leaving node knows of the change that its leave makes.
#[derive(Debug)]
pub struct LeaveState {
    pub before_ring: HashRing,
    pub after_ring: HashRing,
    pub replication: usize,
    pub addresses: Directory,
    pub tokens: Directory,
}

#[verifier::ext_equal]
pub struct LeaveView {
    pub before: Seq<Seq<char>>,
    pub after: Seq<Seq<char>>,
    pub replication: nat,
    pub addresses: Map<Seq<char>, Seq<char>>,
    pub tokens: Map<Seq<char>, Seq<char>>,
}

impl View for LeaveState {
    type V = LeaveView;

    open spec fn view(&self) -> LeaveView {
        LeaveView {
            before: self.before_ring@,
            after: self.after_ring@,
            replication: self.replication as nat,
            addresses: self.addresses@,
            tokens: self.tokens@,
        }
    }
}

impl LeaveView {
    /// The node that takes a key of `self_name` over: the first that comes to
    /// own it. A key that `self_name` does not own has none.
    pub open spec fn entrant(self, key: KeyView, self_name: Seq<char>) -> Option<Seq<char>> {
        let nodes = promoted(self.before, self.after, key, self.replication);
        if owns(self.before, key, self_name, self.replication) && nodes.len() > 0 {
            Some(nodes[0])
        } else {
            None
        }
    }

    /// Where that node is reached, if it is known how.
    pub open spec fn destination(self, key: KeyView, self_name: Seq<char>) -> Option<TargetView> {
        match self.entrant(key, self_name) {
            Some(node) => if self.addresses.contains_key(node) && self.tokens.contains_key(node) {
                Some(
                    TargetView {
                        addr: self.addresses[node],
                        token: self.tokens[node],
                        channel: ChannelView::Entrant(self.addresses[node]),
                    },
                )
            } else {
                None
            },
            None => None,
        }
    }
}

pub open spec fn target_view(target: Option<ForwardTarget>) -> Option<TargetView> {
    match target {
        Some(known) => Some(known@),
        None => None,
    }
}

impl LeaveState {
    /// The node that takes a key over.
    pub fn entrant_for(&self, key: &Key, self_name: &str) -> (entrant: Option<String>)
        ensures
            match entrant {
                Some(node) => self@.entrant(key@, self_name@) == Some(node@),
                None => self@.entrant(key@, self_name@) is None,
            },
    {
        if !self.before_ring.is_owner(key, self_name, self.replication) {
            return None;
        }
        let nodes = promoted_owners(&self.before_ring, &self.after_ring, key, self.replication);
        if nodes.len() == 0 {
            return None;
        }
        assert(text_views(nodes@)[0] == nodes@[0]@);
        Some(nodes[0].clone())
    }

    /// Where a key goes, whether handed over or written meanwhile.
    pub fn destination(&self, key: &Key, self_name: &str) -> (target: Option<ForwardTarget>)
        ensures
            target_view(target) == self@.destination(key@, self_name@),
    {
        match self.entrant_for(key, self_name) {
            Some(node) => match self.addresses.get(node.as_str()) {
                Some(addr) => match self.tokens.get(node.as_str()) {
                    Some(token) => Some(
                        ForwardTarget {
                            addr: addr.to_owned(),
                            token: token.to_owned(),
                            channel: Channel::Entrant(addr.to_owned()),
                        },
                    ),
                    None => None,
                },
                None => None,
            },
            None => None,
        }
    }
}

/// Where a write for a key is forwarded while the node leaves.
pub fn leave_target_for(
    leaving: &Option<LeaveState>,
    self_name: &str,
    key: &Key,
) -> (target: Option<ForwardTarget>)
    ensures
        target_view(target) == match *leaving {
            Some(leave) => leave@.destination(key@, self_name@),
            None => None,
        },
{
    match leaving {
        Some(leave) => leave.destination(key, self_name),
        None => None,
    }
}

/// Every key that the leaving node owns goes to the one node ranked behind its
/// owners; where all nodes own the key there is none. That node is an owner
/// once the leave is through and was none before.
pub proof fn law_entrant_is_the_next_ranked_node(
    leave: LeaveView,
    key: KeyView,
    self_name: Seq<char>,
)
    requires
        joined_by(leave.after, leave.before, self_name),
    ensures
        leave.entrant(key, self_name) == if owns(
            leave.before,
            key,
            self_name,
            leave.replication,
        ) && leave.before.len() > leave.replication {
            Some(ranking(leave.before, key)[leave.replication as int])
        } else {
            None
        },
        leave.entrant(key, self_name) matches Some(node) ==> owns(
            leave.after,
            key,
            node,
            leave.replication,
        ) && !owns(leave.before, key, node, leave.replication),
{
    law_leave_promotes_one_node(
        leave.before,
        leave.after,
        self_name,
        key,
        leave.replication,
    );
    let nodes = promoted(leave.before, leave.after, key, leave.replication);
    if nodes.len() > 0 {
        assert(nodes.contains(nodes[0]));
        lemma_not_among(
            owners_of(leave.after, key, leave.replication),
            owners_of(leave.before, key, leave.replication),
            nodes[0],
        );
    }
}

/// Asks a running handoff to stop.
pub fn request_abort(slot: &mut Option<ActiveMigration>)
    ensures
        slot_view(*final(slot)) == match slot_view(*old(slot)) {
            Some(active) => Some(SlotView { abort_requested: true, ..active }),
            None => None,
        },
{
    match slot.as_mut() {
        Some(active) => {
            active.abort_requested = true;
        },
        None => {},
    }
}

/// Whether a handoff is still transferring.
pub fn is_transferring(slot: &Option<ActiveMigration>) -> (busy: bool)
    ensures
        busy == match slot_view(*slot) {
            Some(active) => active.completed_at is None,
            None => false,
        },
{
    match slot {
        Some(active) => active.completed_at.is_none(),
        None => false,
    }
}

/// How often a leaving node looks whether the running handoff has stopped, and
/// how long it waits in between.
pub const DRAIN_POLLS: u32 = 50;

pub const DRAIN_POLL_INTERVAL: u128 = 100_000_000;

/// Whether a leaving node waits once more for the running handoff to stop.
pub fn drain_waits(slot: &Option<ActiveMigration>, polls: u32, now: u128, deadline: u128) -> (wait:
    bool)
    ensures
        wait == (polls < DRAIN_POLLS && now < deadline && match slot_view(*slot) {
            Some(active) => active.completed_at is None,
            None => false,
        }),
{
    polls < DRAIN_POLLS && is_transferring(slot) && now < deadline
}

/// Why a node leaves without handing anything over.
#[derive(Clone, Copy, Debug, PartialEq, Eq, Structural)]
pub enum EmptyLeave {
    RosterUnavailable,
    NotAMember,
    LastMember,
}

/// How a node leaves.
#[derive(Debug)]
pub enum LeavePlan {
    LeaveNow(EmptyLeave),
    Drain(LeaveState),
}

/// What a node that leaves learns from a roster.
pub open spec fn leave_view(
    members: Seq<RosterEntryView>,
    replication: nat,
    self_name: Seq<char>,
) -> LeaveView {
    LeaveView {
        before: without_repeats(entry_names(members)),
        after: without_repeats(not_among(entry_names(members), seq![self_name])),
        replication,
        addresses: entry_addresses(members),
        tokens: entry_tokens(members),
    }
}

/// Whether every name is `self_name`.
pub open spec fn no_survivors(names: Seq<Seq<char>>, self_name: Seq<char>) -> bool {
    forall|name: Seq<char>| #[trigger] names.contains(name) ==> name == self_name
}

/// The names without `self_name`.
fn names_without(names: &Vec<String>, self_name: &str) -> (others: Vec<String>)
    ensures
        text_views(others@) == not_among(text_views(names@), seq![self_name@]),
{
    let mut others: Vec<String> = Vec::new();
    let mut index: usize = 0;
    assert(text_views(others@) =~= Seq::empty());
    while index < names.len()
        invariant
            index <= names.len(),
            text_views(others@) == not_among(
                text_views(names@).take(index as int),
                seq![self_name@],
            ),
        decreases names.len() - index,
    {
        let ghost seen = text_views(names@).take(index + 1);
        assert(seen.drop_last() =~= text_views(names@).take(index as int));
        assert(seen.last() == names@[index as int]@);
        assert(seq![self_name@][0] == self_name@);
        if !same_text(names[index].as_str(), self_name) {
            let ghost before = others@;
            others.push(names[index].clone());
            assert(text_views(others@) =~= text_views(before).push(names@[index as int]@));
        }
        index += 1;
    }
    assert(text_views(names@).take(names@.len() as int) =~= text_views(names@));
    others
}

/// Decides how to leave, given the roster and the replication factor, or
/// nothing if no discovery server could be asked.
pub fn plan_leave(roster: Option<(Vec<RosterEntry>, usize)>, self_name: &str) -> (plan: LeavePlan)
    ensures
        match roster {
            None => plan == LeavePlan::LeaveNow(EmptyLeave::RosterUnavailable),
            Some((members, replication)) => {
                let names = entry_names(entry_views(members@));
                if !names.contains(self_name@) {
                    plan == LeavePlan::LeaveNow(EmptyLeave::NotAMember)
                } else if no_survivors(names, self_name@) {
                    plan == LeavePlan::LeaveNow(EmptyLeave::LastMember)
                } else {
                    &&& plan matches LeavePlan::Drain(leave)
                    &&& leave@ == leave_view(
                        entry_views(members@),
                        replication as nat,
                        self_name@,
                    )
                    &&& joined_by(leave@.after, leave@.before, self_name@)
                }
            },
        },
{
    let (members, replication) = match roster {
        Some(known) => known,
        None => {
            return LeavePlan::LeaveNow(EmptyLeave::RosterUnavailable);
        },
    };
    let names = roster_member_names(&members);
    if !contains_text(&names, self_name) {
        return LeavePlan::LeaveNow(EmptyLeave::NotAMember);
    }
    let survivors = names_without(&names, self_name);
    let ghost listed = text_views(names@);
    let ghost others = text_views(survivors@);
    proof {
        assert forall|name: Seq<char>| #[trigger] others.contains(name) <==> (listed.contains(name)
            && name != self_name@) by {
            lemma_not_among(listed, seq![self_name@], name);
            assert(seq![self_name@][0] == self_name@);
        }
        lemma_without_repeats(listed);
        lemma_without_repeats(others);
    }
    if survivors.len() == 0 {
        assert(no_survivors(listed, self_name@)) by {
            assert forall|name: Seq<char>| #[trigger] listed.contains(name) implies name
                == self_name@ by {
                assert(others.contains(name) <==> (listed.contains(name) && name != self_name@));
            }
        }
        return LeavePlan::LeaveNow(EmptyLeave::LastMember);
    }
    assert(!no_survivors(listed, self_name@)) by {
        assert(others.contains(others[0]));
        assert(listed.contains(others[0]));
    }
    let (addresses, tokens) = roster_directories(&members);
    let leave = LeaveState {
        before_ring: HashRing::new(names),
        after_ring: HashRing::new(survivors),
        replication,
        addresses,
        tokens,
    };
    assert(joined_by(leave@.after, leave@.before, self_name@)) by {
        assert(!leave@.after.contains(self_name@)) by {
            assert(leave@.after.contains(self_name@) <==> others.contains(self_name@));
        }
        assert forall|name: Seq<char>| #[trigger]
            leave@.before.contains(name) <==> (leave@.after.contains(name) || name
                == self_name@) by {
            assert(leave@.before.contains(name) <==> listed.contains(name));
            assert(leave@.after.contains(name) <==> others.contains(name));
        }
    }
    LeavePlan::Drain(leave)
}

/// What becomes of a key when a node leaves, before anything is sent.
#[derive(Clone, Copy, Debug, PartialEq, Eq, Structural)]
pub enum DecommissionKeyOutcome {
    NotOwned,
    DeadlinePassed,
    Owned,
}

/// Sorts a key. One that the node never owned is not its to miss, deadline or
/// no deadline.
pub fn classify_decommission_key(
    key: &Key,
    before_ring: &HashRing,
    self_name: &str,
    replication: usize,
    deadline_passed: bool,
) -> (outcome: DecommissionKeyOutcome)
    ensures
        outcome == if !owns(before_ring@, key@, self_name@, replication as nat) {
            DecommissionKeyOutcome::NotOwned
        } else if deadline_passed {
            DecommissionKeyOutcome::DeadlinePassed
        } else {
            DecommissionKeyOutcome::Owned
        },
{
    if !before_ring.is_owner(key, self_name, replication) {
        return DecommissionKeyOutcome::NotOwned;
    }
    if deadline_passed {
        return DecommissionKeyOutcome::DeadlinePassed;
    }
    DecommissionKeyOutcome::Owned
}

/// What became of a key when its turn came.
pub enum KeyFate {
    NotOwned,
    /// Owned, and the budget was used up.
    TooLate,
    /// Owned, and no node is known to take it over.
    NowhereToGo,
    /// Deleted or expired by then.
    Gone,
    Delivered,
    Undelivered,
}

/// What the drain of a leaving node asks for.
#[derive(Clone, Copy, Debug, PartialEq, Eq, Structural)]
pub enum DrainStep {
    /// Take the next key.
    NextKey,
    /// Read the entry of `DrainRun::current`.
    Peek,
    /// Send that entry to `DrainRun::target`.
    Send,
    Finished,
}

#[derive(Clone, Copy, Debug, PartialEq, Eq, Structural)]
pub enum DrainPhase {
    Choosing,
    Peeking,
    Sending,
    Finished,
}

/// A drain as a whole.
#[verifier::ext_equal]
pub struct DrainView {
    pub leave: LeaveView,
    pub self_name: Seq<char>,
    pub keys: Seq<KeyView>,
    /// What became of the keys that have had their turn, in order.
    pub fates: Seq<KeyFate>,
    pub target: Option<TargetView>,
    pub phase: DrainPhase,
}

pub open spec fn count_of(fates: Seq<KeyFate>, fate: KeyFate) -> nat
    decreases fates.len(),
{
    if fates.len() == 0 {
        0
    } else {
        count_of(fates.drop_last(), fate) + if fates.last() == fate {
            1nat
        } else {
            0
        }
    }
}

impl DrainView {
    /// Whether a fate is one that a key can have.
    pub open spec fn fits(self, key: KeyView, fate: KeyFate) -> bool {
        let owned = owns(self.leave.before, key, self.self_name, self.leave.replication);
        let destination = self.leave.destination(key, self.self_name);
        match fate {
            KeyFate::NotOwned => !owned,
            KeyFate::TooLate => owned,
            KeyFate::NowhereToGo => owned && destination is None,
            KeyFate::Gone | KeyFate::Delivered | KeyFate::Undelivered => destination is Some,
        }
    }

    pub open spec fn wf(self) -> bool {
        &&& self.fates.len() <= self.keys.len()
        &&& forall|i: int|
            0 <= i < self.fates.len() ==> self.fits(self.keys[i], #[trigger] self.fates[i])
        &&& self.phase == DrainPhase::Peeking || self.phase == DrainPhase::Sending ==> {
            &&& self.fates.len() < self.keys.len()
            &&& self.target is Some
            &&& self.target == self.leave.destination(
                self.keys[self.fates.len() as int],
                self.self_name,
            )
        }
        &&& self.phase == DrainPhase::Finished ==> self.fates.len() == self.keys.len()
    }

    /// The drain once its current key has met its fate.
    pub open spec fn after_fate(self, fate: KeyFate) -> DrainView {
        DrainView { fates: self.fates.push(fate), target: None, phase: DrainPhase::Choosing, ..self }
    }

    /// What the next key meets before anything is sent, if it meets it then.
    pub open spec fn early_fate(self, deadline_passed: bool) -> Option<KeyFate> {
        let key = self.keys[self.fates.len() as int];
        if !owns(self.leave.before, key, self.self_name, self.leave.replication) {
            Some(KeyFate::NotOwned)
        } else if deadline_passed {
            Some(KeyFate::TooLate)
        } else if self.leave.destination(key, self.self_name) is None {
            Some(KeyFate::NowhereToGo)
        } else {
            None
        }
    }
}

proof fn lemma_after_fate(run: DrainView, fate: KeyFate)
    requires
        run.wf(),
        run.fates.len() < run.keys.len(),
        run.fits(run.keys[run.fates.len() as int], fate),
    ensures
        run.after_fate(fate).wf(),
        forall|other: KeyFate|
            count_of(run.after_fate(fate).fates, other) == #[trigger] count_of(run.fates, other)
                + if other == fate {
                1nat
            } else {
                0
            },
{
    let end = run.after_fate(fate);
    assert(end.fates.drop_last() =~= run.fates);
    assert forall|i: int| 0 <= i < end.fates.len() implies end.fits(
        end.keys[i],
        #[trigger] end.fates[i],
    ) by {
        if i < run.fates.len() {
            assert(run.fits(run.keys[i], run.fates[i]));
        } else {
            assert(run.fits(run.keys[i], fate));
        }
    }
}

/// A drain in progress.
pub struct DrainRun {
    keys: Vec<Key>,
    next: usize,
    sent: usize,
    left_behind: usize,
    target: Option<ForwardTarget>,
    phase: DrainPhase,
    fates: Ghost<Seq<KeyFate>>,
}

impl DrainRun {
    /// The drain of `self_name` under `leave`.
    pub closed spec fn drain(self, leave: LeaveView, self_name: Seq<char>) -> DrainView {
        DrainView {
            leave,
            self_name,
            keys: key_views(self.keys@),
            fates: self.fates@,
            target: target_view(self.target),
            phase: self.phase,
        }
    }

    pub closed spec fn wf(self, leave: LeaveView, self_name: Seq<char>) -> bool {
        &&& self.drain(leave, self_name).wf()
        &&& self.next == self.fates@.len()
        &&& self.sent == count_of(self.fates@, KeyFate::Delivered)
        &&& self.left_behind == count_of(self.fates@, KeyFate::TooLate) + count_of(
            self.fates@,
            KeyFate::Undelivered,
        )
        &&& self.sent + self.left_behind <= self.next
    }

    pub fn new(keys: Vec<Key>, leave: &LeaveState, self_name: &str) -> (run: DrainRun)
        ensures
            run.wf(leave@, self_name@),
            run.drain(leave@, self_name@) == (DrainView {
                leave: leave@,
                self_name: self_name@,
                keys: key_views(keys@),
                fates: Seq::empty(),
                target: None,
                phase: DrainPhase::Choosing,
            }),
    {
        DrainRun {
            keys,
            next: 0,
            sent: 0,
            left_behind: 0,
            target: None,
            phase: DrainPhase::Choosing,
            fates: Ghost(Seq::empty()),
        }
    }

    /// How many entries were delivered.
    pub fn sent(&self, leave: &LeaveState, self_name: &str) -> (count: usize)
        requires
            self.wf(leave@, self_name@),
        ensures
            count == count_of(self.drain(leave@, self_name@).fates, KeyFate::Delivered),
    {
        self.sent
    }

    /// How many owned entries could not be handed over in time.
    pub fn left_behind(&self, leave: &LeaveState, self_name: &str) -> (count: usize)
        requires
            self.wf(leave@, self_name@),
        ensures
            count == count_of(self.drain(leave@, self_name@).fates, KeyFate::TooLate) + count_of(
                self.drain(leave@, self_name@).fates,
                KeyFate::Undelivered,
            ),
    {
        self.left_behind
    }

    /// The key whose turn it is.
    pub fn current(&self, leave: &LeaveState, self_name: &str) -> (key: &Key)
        requires
            self.wf(leave@, self_name@),
            self.drain(leave@, self_name@).phase == DrainPhase::Peeking || self.drain(
                leave@,
                self_name@,
            ).phase == DrainPhase::Sending,
        ensures
            key@ == self.drain(leave@, self_name@).keys[self.drain(
                leave@,
                self_name@,
            ).fates.len() as int],
    {
        &self.keys[self.next]
    }

    /// Where the current key goes, from the time its entry is read.
    pub fn target(&self, leave: &LeaveState, self_name: &str) -> (target: Option<&ForwardTarget>)
        requires
            self.wf(leave@, self_name@),
        ensures
            match target {
                Some(known) => self.drain(leave@, self_name@).target == Some(known@),
                None => self.drain(leave@, self_name@).target is None,
            },
    {
        self.target.as_ref()
    }

    /// The current entry as it is sent to the target: it replaces what the target
    /// has.
    pub fn write<'a>(
        &'a self,
        leave: &LeaveState,
        self_name: &str,
        value: &'a [u8],
        ttl: Option<u128>,
    ) -> (write: Option<ForwardedWrite<'a>>)
        requires
            self.wf(leave@, self_name@),
            self.drain(leave@, self_name@).phase == DrainPhase::Sending,
        ensures
            write matches Some(entry) && entry@ == (WriteView::HandoffSet {
                key: self.drain(leave@, self_name@).keys[self.drain(
                    leave@,
                    self_name@,
                ).fates.len() as int],
                value: value@,
                ttl,
                if_absent: false,
                token: self.drain(leave@, self_name@).target->0.token,
            }),
    {
        match &self.target {
            Some(target) => Some(
                ForwardedWrite::HandoffSet {
                    key: self.current(leave, self_name),
                    value,
                    ttl,
                    if_absent: false,
                    token: target.token.as_str(),
                },
            ),
            None => None,
        }
    }

    /// Takes the next key.
    pub fn next_key(
        &mut self,
        leave: &LeaveState,
        self_name: &str,
        deadline_passed: bool,
    ) -> (step: DrainStep)
        requires
            old(self).wf(leave@, self_name@),
            old(self).drain(leave@, self_name@).phase == DrainPhase::Choosing,
        ensures
            final(self).wf(leave@, self_name@),
            ({
                let before = old(self).drain(leave@, self_name@);
                let after = final(self).drain(leave@, self_name@);
                if before.fates.len() == before.keys.len() {
                    step == DrainStep::Finished && after == (DrainView {
                        phase: DrainPhase::Finished,
                        ..before
                    })
                } else {
                    match before.early_fate(deadline_passed) {
                        Some(fate) => step == DrainStep::NextKey && after == before.after_fate(
                            fate,
                        ),
                        None => step == DrainStep::Peek && after == (DrainView {
                            target: leave@.destination(
                                before.keys[before.fates.len() as int],
                                self_name@,
                            ),
                            phase: DrainPhase::Peeking,
                            ..before
                        }),
                    }
                }
            }),
    {
        let ghost before = self.drain(leave@, self_name@);
        if self.next >= self.keys.len() {
            self.phase = DrainPhase::Finished;
            return DrainStep::Finished;
        }
        let total: usize = self.keys.len();
        assert(self.next < total);
        match classify_decommission_key(
            &self.keys[self.next],
            &leave.before_ring,
            self_name,
            leave.replication,
            deadline_passed,
        ) {
            DecommissionKeyOutcome::NotOwned => {
                self.settle(leave, self_name, Ghost(KeyFate::NotOwned));
                DrainStep::NextKey
            },
            DecommissionKeyOutcome::DeadlinePassed => {
                self.settle(leave, self_name, Ghost(KeyFate::TooLate));
                self.left_behind = self.left_behind + 1;
                DrainStep::NextKey
            },
            DecommissionKeyOutcome::Owned => {
                let target = leave.destination(&self.keys[self.next], self_name);
                if target.is_none() {
                    self.settle(leave, self_name, Ghost(KeyFate::NowhereToGo));
                    return DrainStep::NextKey;
                }
                self.target = target;
                self.phase = DrainPhase::Peeking;
                DrainStep::Peek
            },
        }
    }

    /// Lets the current key meet its fate, without counting it.
    fn settle(&mut self, leave: &LeaveState, self_name: &str, Ghost(fate): Ghost<KeyFate>)
        requires
            old(self).drain(leave@, self_name@).wf(),
            old(self).next == old(self).fates@.len(),
            old(self).fates@.len() < old(self).keys@.len(),
            old(self).drain(leave@, self_name@).fits(
                key_views(old(self).keys@)[old(self).fates@.len() as int],
                fate,
            ),
        ensures
            final(self).drain(leave@, self_name@) == old(self).drain(
                leave@,
                self_name@,
            ).after_fate(fate),
            final(self).drain(leave@, self_name@).wf(),
            final(self).next == old(self).next + 1,
            final(self).next <= final(self).keys@.len(),
            final(self).sent == old(self).sent,
            final(self).left_behind == old(self).left_behind,
            final(self).fates@ == old(self).fates@.push(fate),
            forall|other: KeyFate|
                count_of(final(self).fates@, other) == #[trigger] count_of(old(self).fates@, other)
                    + if other == fate {
                    1nat
                } else {
                    0
                },
    {
        let ghost before = self.drain(leave@, self_name@);
        let total: usize = self.keys.len();
        assert(self.next < total);
        proof {
            lemma_after_fate(before, fate);
        }
        self.fates = Ghost(self.fates@.push(fate));
        self.next = self.next + 1;
        self.target = None;
        self.phase = DrainPhase::Choosing;
        assert(self.drain(leave@, self_name@) =~= before.after_fate(fate));
    }

    /// The current key has an entry, or it is gone.
    pub fn peeked(&mut self, leave: &LeaveState, self_name: &str, present: bool) -> (step:
        DrainStep)
        requires
            old(self).wf(leave@, self_name@),
            old(self).drain(leave@, self_name@).phase == DrainPhase::Peeking,
        ensures
            final(self).wf(leave@, self_name@),
            ({
                let before = old(self).drain(leave@, self_name@);
                let after = final(self).drain(leave@, self_name@);
                if present {
                    step == DrainStep::Send && after == (DrainView {
                        phase: DrainPhase::Sending,
                        ..before
                    })
                } else {
                    step == DrainStep::NextKey && after == before.after_fate(KeyFate::Gone)
                }
            }),
    {
        if present {
            self.phase = DrainPhase::Sending;
            DrainStep::Send
        } else {
            self.settle(leave, self_name, Ghost(KeyFate::Gone));
            DrainStep::NextKey
        }
    }

    /// The current entry was acknowledged, or could not be delivered.
    pub fn transferred(&mut self, leave: &LeaveState, self_name: &str, delivered: bool)
        requires
            old(self).wf(leave@, self_name@),
            old(self).drain(leave@, self_name@).phase == DrainPhase::Sending,
        ensures
            final(self).wf(leave@, self_name@),
            final(self).drain(leave@, self_name@) == old(self).drain(
                leave@,
                self_name@,
            ).after_fate(
                if delivered {
                    KeyFate::Delivered
                } else {
                    KeyFate::Undelivered
                },
            ),
    {
        if delivered {
            self.settle(leave, self_name, Ghost(KeyFate::Delivered));
            self.sent = self.sent + 1;
        } else {
            self.settle(leave, self_name, Ghost(KeyFate::Undelivered));
            self.left_behind = self.left_behind + 1;
        }
    }
}

/// A drain that finished accounts for every key: one the node does not own was
/// passed over and never counted as left behind, and one it owns and knows a
/// way for was delivered, was gone, or is counted as left behind.
pub proof fn law_drain_accounts_for_every_key(run: DrainView, index: int)
    requires
        run.wf(),
        run.phase == DrainPhase::Finished,
        0 <= index < run.keys.len(),
    ensures
        ({
            let key = run.keys[index];
            let fate = run.fates[index];
            let owned = owns(run.leave.before, key, run.self_name, run.leave.replication);
            &&& !owned <==> fate is NotOwned
            &&& run.leave.destination(key, run.self_name) is Some ==> fate is Delivered
                || fate is Gone || fate is Undelivered || fate is TooLate
        }),
{
    assert(run.fits(run.keys[index], run.fates[index]));
    assert(run.leave.destination(run.keys[index], run.self_name) is Some ==> owns(
        run.leave.before,
        run.keys[index],
        run.self_name,
        run.leave.replication,
    ));
}

/// How long the node goes on forwarding after it left: the grace of what it
/// handed over, or what is left of its budget if that is less.
pub fn drain_grace(sent: usize, now: u128, deadline: u128) -> (grace: u128)
    ensures
        ({
            let left = if deadline >= now {
                deadline - now
            } else {
                0
            };
            grace == if grace_after(sent as nat) <= left {
                grace_after(sent as nat) as int
            } else {
                left
            }
        }),
{
    let full: u128 = forwarding_grace(sent);
    let left: u128 = deadline.saturating_sub(now);
    if full <= left {
        full
    } else {
        left
    }
}

/// How far a node is with its leave.
#[derive(Clone, Copy, Debug, PartialEq, Eq, Structural)]
pub enum LeavePhase {
    /// The running handoff was asked to stop.
    Stopping,
    /// The roster is asked for.
    Fetching,
    /// The keys are listed.
    Listing,
    Draining,
    /// Discovery is told; `handed_over` entries went before.
    Leaving { handed_over: Option<usize> },
    /// The last writes are forwarded.
    Forwarding,
    Gone,
}

impl LeavePhase {
    /// Whether a leave can go on from this phase to `next`.
    pub open spec fn leads_to(self, next: LeavePhase) -> bool {
        match self {
            LeavePhase::Stopping => next is Stopping || next is Fetching,
            LeavePhase::Fetching => next is Listing || next == (LeavePhase::Leaving {
                handed_over: None,
            }),
            LeavePhase::Listing => next is Draining || next == (LeavePhase::Leaving {
                handed_over: None,
            }),
            LeavePhase::Draining => next is Leaving && next->handed_over is Some,
            LeavePhase::Leaving { handed_over } => if handed_over is Some {
                next is Forwarding
            } else {
                next is Gone
            },
            LeavePhase::Forwarding => next is Gone,
            LeavePhase::Gone => false,
        }
    }
}

/// What holds of every well-formed drain as a whole holds of a run.
pub proof fn law_drain_run_is_well_formed(run: DrainRun, leave: LeaveView, self_name: Seq<char>)
    requires
        run.wf(leave, self_name),
    ensures
        run.drain(leave, self_name).wf(),
{
}

/// A drain goes by the plan and the name it is asked about with, throughout.
pub proof fn law_drain_follows_its_plan(run: DrainRun, leave: LeaveView, self_name: Seq<char>)
    ensures
        run.drain(leave, self_name).leave == leave,
        run.drain(leave, self_name).self_name == self_name,
{
}

/// Whatever happens on the way, a node that has left, or that only forwards any
/// more, has told discovery.
pub proof fn law_leave_tells_discovery(phases: Seq<LeavePhase>)
    requires
        phases.len() > 0,
        phases[0] == LeavePhase::Stopping,
        forall|i: int, j: int|
            0 <= i && j == i + 1 && j < phases.len() ==> (#[trigger] phases[i]).leads_to(
                #[trigger] phases[j],
            ),
        phases.last() is Gone || phases.last() is Forwarding,
    ensures
        exists|i: int| 0 <= i < phases.len() && #[trigger] phases[i] is Leaving,
{
    let last = phases.len() - 1;
    assert(phases[last - 1].leads_to(phases[last]));
    if phases[last - 1] is Forwarding {
        assert(phases[last - 2].leads_to(phases[last - 1]));
        assert(phases[last - 2] is Leaving);
    }
}

/// What a leaving node does next.
#[derive(Clone, Copy, Debug, PartialEq, Eq, Structural)]
pub enum LeaveAction {
    /// Waits for a moment and looks at the handoff again.
    Poll,
    FetchRoster,
    ListKeys,
    /// Hands its keys over with a `DrainRun`.
    Drain,
    /// Tells discovery that it leaves.
    SendLeave,
    /// Goes on forwarding for this long.
    Forward(u128),
    Finish,
}

/// The leave of a node.
#[derive(Clone, Copy, Debug, PartialEq, Eq, Structural)]
pub struct Decommission {
    pub phase: LeavePhase,
    pub polls: u32,
    pub deadline: u128,
}

impl Decommission {
    /// Begins to leave, within `budget`: a running handoff is asked to stop.
    pub fn begin(slot: &mut Option<ActiveMigration>, budget: u128, now: u128) -> (leave:
        Decommission)
        ensures
            leave == (Decommission {
                phase: LeavePhase::Stopping,
                polls: 0,
                deadline: if now + budget <= u128::MAX {
                    (now + budget) as u128
                } else {
                    u128::MAX
                },
            }),
            slot_view(*final(slot)) == match slot_view(*old(slot)) {
                Some(active) => Some(SlotView { abort_requested: true, ..active }),
                None => None,
            },
    {
        request_abort(slot);
        Decommission {
            phase: LeavePhase::Stopping,
            polls: 0,
            deadline: now.saturating_add(budget),
        }
    }

    /// Looks at the handoff that was asked to stop; it is waited for within
    /// bounds.
    pub fn poll(&mut self, slot: &Option<ActiveMigration>, now: u128) -> (action: LeaveAction)
        requires
            old(self).phase == LeavePhase::Stopping,
        ensures
            final(self).deadline == old(self).deadline,
            old(self).phase.leads_to(final(self).phase),
            if old(self).polls < DRAIN_POLLS && now < old(self).deadline && (match slot_view(*slot) {
                Some(active) => active.completed_at is None,
                None => false,
            }) {
                &&& action == LeaveAction::Poll
                &&& final(self).phase == LeavePhase::Stopping
                &&& final(self).polls == old(self).polls + 1
            } else {
                &&& action == LeaveAction::FetchRoster
                &&& final(self).phase == LeavePhase::Fetching
                &&& final(self).polls == old(self).polls
            },
    {
        if drain_waits(slot, self.polls, now, self.deadline) {
            self.polls = self.polls + 1;
            return LeaveAction::Poll;
        }
        self.phase = LeavePhase::Fetching;
        LeaveAction::FetchRoster
    }

    /// The roster was fetched, or could not be. If there is anything to hand
    /// over, the node's own requests go by the plan from now on.
    pub fn fetched(
        &mut self,
        roster: Option<(Vec<RosterEntry>, usize)>,
        self_name: &str,
        leaving: &mut Option<LeaveState>,
    ) -> (action: LeaveAction)
        requires
            old(self).phase == LeavePhase::Fetching,
        ensures
            final(self).deadline == old(self).deadline,
            old(self).phase.leads_to(final(self).phase),
            match roster {
                Some((members, replication)) => {
                    let names = entry_names(entry_views(members@));
                    if names.contains(self_name@) && !no_survivors(names, self_name@) {
                        &&& action == LeaveAction::ListKeys
                        &&& final(self).phase == LeavePhase::Listing
                        &&& *final(leaving) matches Some(state)
                        &&& state@ == leave_view(
                            entry_views(members@),
                            replication as nat,
                            self_name@,
                        )
                    } else {
                        &&& action == LeaveAction::SendLeave
                        &&& final(self).phase == (LeavePhase::Leaving { handed_over: None })
                        &&& *final(leaving) == *old(leaving)
                    }
                },
                None => {
                    &&& action == LeaveAction::SendLeave
                    &&& final(self).phase == (LeavePhase::Leaving { handed_over: None })
                    &&& *final(leaving) == *old(leaving)
                },
            },
    {
        match plan_leave(roster, self_name) {
            LeavePlan::LeaveNow(_) => {
                self.phase = LeavePhase::Leaving { handed_over: None };
                LeaveAction::SendLeave
            },
            LeavePlan::Drain(state) => {
                *leaving = Some(state);
                self.phase = LeavePhase::Listing;
                LeaveAction::ListKeys
            },
        }
    }

    /// The keys were listed, or the cache could not be asked.
    pub fn listed(&mut self, available: bool) -> (action: LeaveAction)
        requires
            old(self).phase == LeavePhase::Listing,
        ensures
            final(self).deadline == old(self).deadline,
            old(self).phase.leads_to(final(self).phase),
            if available {
                action == LeaveAction::Drain && final(self).phase == LeavePhase::Draining
            } else {
                action == LeaveAction::SendLeave && final(self).phase == (LeavePhase::Leaving {
                    handed_over: None,
                })
            },
    {
        if available {
            self.phase = LeavePhase::Draining;
            LeaveAction::Drain
        } else {
            self.phase = LeavePhase::Leaving { handed_over: None };
            LeaveAction::SendLeave
        }
    }

    /// The drain is through; `sent` entries were delivered.
    pub fn drained(&mut self, sent: usize) -> (action: LeaveAction)
        requires
            old(self).phase == LeavePhase::Draining,
        ensures
            final(self).deadline == old(self).deadline,
            old(self).phase.leads_to(final(self).phase),
            action == LeaveAction::SendLeave,
            final(self).phase == (LeavePhase::Leaving { handed_over: Some(sent) }),
    {
        self.phase = LeavePhase::Leaving { handed_over: Some(sent) };
        LeaveAction::SendLeave
    }

    /// Discovery was told, as far as it could be. A node that handed entries
    /// over goes on forwarding for the grace of that, within its budget.
    pub fn left(&mut self, now: u128) -> (action: LeaveAction)
        requires
            old(self).phase is Leaving,
        ensures
            final(self).deadline == old(self).deadline,
            old(self).phase.leads_to(final(self).phase),
            match old(self).phase {
                LeavePhase::Leaving { handed_over: Some(sent) } => {
                    let left = if old(self).deadline >= now {
                        old(self).deadline - now
                    } else {
                        0
                    };
                    &&& final(self).phase == LeavePhase::Forwarding
                    &&& action matches LeaveAction::Forward(grace)
                    &&& grace == if grace_after(sent as nat) <= left {
                        grace_after(sent as nat) as int
                    } else {
                        left
                    }
                },
                _ => action == LeaveAction::Finish && final(self).phase == LeavePhase::Gone,
            },
    {
        match self.phase {
            LeavePhase::Leaving { handed_over: Some(sent) } => {
                self.phase = LeavePhase::Forwarding;
                LeaveAction::Forward(drain_grace(sent, now, self.deadline))
            },
            _ => {
                self.phase = LeavePhase::Gone;
                LeaveAction::Finish
            },
        }
    }

    /// The grace is over.
    pub fn forwarded(&mut self) -> (action: LeaveAction)
        requires
            old(self).phase == LeavePhase::Forwarding,
        ensures
            final(self).deadline == old(self).deadline,
            old(self).phase.leads_to(final(self).phase),
            action == LeaveAction::Finish,
            final(self).phase == LeavePhase::Gone,
    {
        self.phase = LeavePhase::Gone;
        LeaveAction::Finish
    }
}

/// Where a leaving node sends a key is the address, with the token, of a node
/// that comes to own the key by the leave and did not own it before; a key that
/// the node does not own is sent nowhere. A destination is known whenever the
/// address and the token of the entrant are.
pub proof fn law_destination_is_a_new_owner(leave: LeaveView, key: KeyView, self_name: Seq<char>)
    ensures
        !owns(leave.before, key, self_name, leave.replication) ==> leave.destination(
            key,
            self_name,
        ) is None,
        leave.destination(key, self_name) matches Some(target) ==> exists|heir: Seq<char>|
            #![trigger owns(leave.after, key, heir, leave.replication)]
            owns(leave.after, key, heir, leave.replication) && !owns(
                leave.before,
                key,
                heir,
                leave.replication,
            ) && leave.addresses.contains_key(heir) && leave.tokens.contains_key(heir)
                && target.addr == leave.addresses[heir] && target.token == leave.tokens[heir]
                && target.channel == ChannelView::Entrant(leave.addresses[heir]),
        leave.entrant(key, self_name) matches Some(heir) ==> (leave.addresses.contains_key(heir)
            && leave.tokens.contains_key(heir) <==> leave.destination(key, self_name) is Some),
{
    if let Some(heir) = leave.entrant(key, self_name) {
        let nodes = promoted(leave.before, leave.after, key, leave.replication);
        assert(nodes.contains(nodes[0]));
        lemma_not_among(
            owners_of(leave.after, key, leave.replication),
            owners_of(leave.before, key, leave.replication),
            heir,
        );
        assert(owns(leave.after, key, heir, leave.replication));
    }
}

/// What a node that leaves goes by: before, the nodes that the roster lists, and
/// after, the same without itself, each once; the replication factor of the
/// roster; and of each node the address and the token that the roster gives it.
pub proof fn law_leave_goes_by_the_roster(
    members: Seq<RosterEntryView>,
    replication: nat,
    self_name: Seq<char>,
    node: Seq<char>,
)
    ensures
        ({
            let leave = leave_view(members, replication, self_name);
            &&& leave.replication == replication
            &&& leave.before.no_duplicates() && leave.after.no_duplicates()
            &&& leave.before.contains(node) <==> exists|i: int|
                0 <= i < members.len() && (#[trigger] members[i]).name == node
            &&& leave.after.contains(node) <==> node != self_name && leave.before.contains(node)
            &&& leave.before.contains(node) ==> leave.addresses.contains_key(node)
                && leave.tokens.contains_key(node)
            &&& leave.addresses == entry_addresses(members) && leave.tokens == entry_tokens(members)
        }),
{
    let names = entry_names(members);
    lemma_without_repeats(names);
    lemma_without_repeats(not_among(names, seq![self_name]));
    lemma_not_among(names, seq![self_name], node);
    law_listed_names_can_be_reached(members, node);
    let leave = leave_view(members, replication, self_name);
    assert(seq![self_name].contains(node) <==> node == self_name) by {
        assert(seq![self_name][0] == self_name);
    }
    assert(leave.before.contains(node) <==> names.contains(node));
    assert(leave.after.contains(node) <==> not_among(names, seq![self_name]).contains(node));
    if names.contains(node) {
        let i = names.index_of(node);
        assert(members[i].name == node);
    }
    if exists|i: int| 0 <= i < members.len() && (#[trigger] members[i]).name == node {
        let i = choose|i: int| 0 <= i < members.len() && (#[trigger] members[i]).name == node;
        assert(names[i] == node);
    }
}

/// The phases of a leave come in order, and none is entered twice but the
/// waiting for a running handoff; a node forwards at the end just if it drained.
pub proof fn law_leave_phases_come_in_order(phase: LeavePhase, next: LeavePhase)
    requires
        phase.leads_to(next),
    ensures
        !(phase is Gone),
        next is Stopping ==> phase is Stopping,
        next is Fetching ==> phase is Stopping,
        next is Listing ==> phase is Fetching,
        next is Draining ==> phase is Listing,
        next is Forwarding ==> phase is Leaving && phase->handed_over is Some,
        next is Gone ==> phase is Forwarding || (phase is Leaving && phase->handed_over is None),
        next is Leaving ==> (phase is Draining <==> next->handed_over is Some) && (phase is Fetching
            || phase is Listing || phase is Draining),
{
}

/// A key that the drain passes over for want of ownership is never sent; one
/// that it owns is given up before it is read only when the time is over or
/// nobody is known to take it.
pub proof fn law_early_fates(run: DrainView, deadline_passed: bool)
    requires
        run.fates.len() < run.keys.len(),
    ensures
        ({
            let key = run.keys[run.fates.len() as int];
            let owned = owns(run.leave.before, key, run.self_name, run.leave.replication);
            let early = run.early_fate(deadline_passed);
            &&& early == Some(KeyFate::NotOwned) <==> !owned
            &&& early == Some(KeyFate::TooLate) <==> owned && deadline_passed
            &&& early == Some(KeyFate::NowhereToGo) <==> owned && !deadline_passed
                && run.leave.destination(key, run.self_name) is None
            &&& early is None <==> owned && !deadline_passed && run.leave.destination(
                key,
                run.self_name,
            ) is Some
        }),
{
}

/// A key that has met its fate has had its turn: the next one follows, and what
/// is counted of one fate grows by one if it is that one, else not at all.
pub proof fn law_each_fate_counts_once(run: DrainView, fate: KeyFate, other: KeyFate)
    ensures
        run.after_fate(fate).fates.len() == run.fates.len() + 1,
        run.after_fate(fate).fates.last() == fate,
        run.after_fate(fate).keys == run.keys,
        run.after_fate(fate).phase == DrainPhase::Choosing,
        run.after_fate(fate).target is None,
        forall|i: int|
            0 <= i < run.fates.len() ==> #[trigger] run.after_fate(fate).fates[i] == run.fates[i],
        count_of(run.after_fate(fate).fates, other) == count_of(run.fates, other) + if other
            == fate {
            1nat
        } else {
            0
        },
{
    assert(run.fates.push(fate).drop_last() =~= run.fates);
}

/// A node is the last member just if a roster lists nobody else.
pub proof fn law_last_member_is_alone(names: Seq<Seq<char>>, self_name: Seq<char>)
    ensures
        no_survivors(names, self_name) <==> forall|i: int|
            0 <= i < names.len() ==> #[trigger] names[i] == self_name,
{
    if no_survivors(names, self_name) {
        assert forall|i: int| 0 <= i < names.len() implies #[trigger] names[i] == self_name by {
            assert(names.contains(names[i]));
        }
    }
    if forall|i: int| 0 <= i < names.len() ==> #[trigger] names[i] == self_name {
        assert forall|name: Seq<char>| #[trigger] names.contains(name) implies name
            == self_name by {
            assert(names[names.index_of(name)] == name);
        }
    }
}

/// Whether a key was ever this node's is asked before the time: a key that it
/// does not own is never missed, however late it is.
pub proof fn law_ownership_comes_before_the_deadline(
    key: Key,
    before_ring: HashRing,
    self_name: &str,
    replication: usize,
    deadline_passed: bool,
    outcome: DecommissionKeyOutcome,
)
    requires
        call_ensures(
            classify_decommission_key,
            (&key, &before_ring, self_name, replication, deadline_passed),
            outcome,
        ),
    ensures
        outcome is NotOwned <==> !owns(before_ring@, key@, self_name@, replication as nat),
        outcome is DeadlinePassed ==> deadline_passed,
        outcome is Owned ==> !deadline_passed,
{
}

/// A node that has left goes on forwarding for the grace of what it handed over,
/// but never past its deadline.
pub proof fn law_forwarding_ends_with_the_budget(
    sent: usize,
    now: u128,
    deadline: u128,
    grace: u128,
)
    requires
        call_ensures(drain_grace, (sent, now, deadline), grace),
    ensures
        grace <= grace_after(sent as nat),
        now <= deadline ==> now + grace <= deadline,
        now >= deadline ==> grace == 0,
        now <= deadline ==> now + grace == deadline || grace == grace_after(sent as nat),
{
}

/// A leaving node waits only for a handoff that still transfers, at most fifty
/// times, and not past its deadline.
pub proof fn law_drain_waits_within_bounds(
    slot: Option<ActiveMigration>,
    polls: u32,
    now: u128,
    deadline: u128,
    wait: bool,
)
    requires
        call_ensures(drain_waits, (&slot, polls, now, deadline), wait),
    ensures
        wait ==> polls < 50 && now < deadline && (slot matches Some(active)
            && active.completed_at is None),
        polls < 50 && now < deadline && (slot matches Some(active) && active.completed_at is None)
            ==> wait,
{
}

/// A node drains just when the roster lists it together with others; it then
/// goes by the nodes that the roster lists, without itself after the leave.
pub proof fn law_node_drains_if_others_remain(
    members: Vec<RosterEntry>,
    replication: usize,
    self_name: &str,
    plan: LeavePlan,
)
    requires
        call_ensures(plan_leave, (Some((members, replication)), self_name), plan),
    ensures
        ({
            let names = entry_names(entry_views(members@));
            &&& plan is Drain <==> names.contains(self_name@) && exists|i: int|
                0 <= i < names.len() && #[trigger] names[i] != self_name@
            &&& plan == LeavePlan::LeaveNow(EmptyLeave::NotAMember) <==> !names.contains(self_name@)
            &&& plan matches LeavePlan::Drain(leave) ==> leave@.replication == replication && (
            forall|node: Seq<char>| #[trigger]
                leave@.before.contains(node) <==> names.contains(node)) && (forall|
                node: Seq<char>,
            | #[trigger]
                leave@.after.contains(node) <==> names.contains(node) && node != self_name@)
        }),
{
    let views = entry_views(members@);
    let names = entry_names(views);
    law_last_member_is_alone(names, self_name@);
    assert forall|node: Seq<char>| leave_view(views, replication as nat, self_name@).before.contains(
        node,
    ) <==> #[trigger] names.contains(node) by {
        lemma_without_repeats(names);
    }
    assert forall|node: Seq<char>|
        #[trigger] leave_view(views, replication as nat, self_name@).after.contains(node)
            <==> names.contains(node) && node != self_name@ by {
        law_leave_goes_by_the_roster(views, replication as nat, self_name@, node);
        lemma_without_repeats(names);
    }
}

/// What a node knows of its leave is viewed whole.
pub proof fn law_leave_is_viewed_whole(leave: LeaveState, target: ForwardTarget)
    ensures
        leave@.before == leave.before_ring@,
        leave@.after == leave.after_ring@,
        leave@.replication == leave.replication,
        leave@.addresses == leave.addresses@,
        leave@.tokens == leave.tokens@,
        target_view(None) is None,
        target_view(Some(target)) == Some(target@),
{
}

/// Of several nodes that come to own a key, the best ranked takes it over: every
/// owner ranked before it was one before the leave.
pub proof fn law_entrant_is_the_best_ranked_new_owner(
    leave: LeaveView,
    key: KeyView,
    self_name: Seq<char>,
)
    ensures
        leave.entrant(key, self_name) matches Some(heir) ==> exists|place: int|
            0 <= place < owners_of(leave.after, key, leave.replication).len()
                && #[trigger] owners_of(leave.after, key, leave.replication)[place] == heir
                && !owns(leave.before, key, heir, leave.replication) && (forall|i: int|
                0 <= i < place ==> owns(
                    leave.before,
                    key,
                    #[trigger] owners_of(leave.after, key, leave.replication)[i],
                    leave.replication,
                )),
        owns(leave.before, key, self_name, leave.replication) && leave.entrant(
            key,
            self_name,
        ) is None ==> forall|node: Seq<char>|
            #![trigger owns(leave.after, key, node, leave.replication)]
            owns(leave.after, key, node, leave.replication) ==> owns(
                leave.before,
                key,
                node,
                leave.replication,
            ),
{
    law_best_ranked_node_is_promoted_first(leave.before, leave.after, key, leave.replication);
    if leave.entrant(key, self_name) is None {
        assert forall|node: Seq<char>|
            #![trigger owns(leave.after, key, node, leave.replication)]
            owns(leave.after, key, node, leave.replication) && owns(
                leave.before,
                key,
                self_name,
                leave.replication,
            ) implies owns(leave.before, key, node, leave.replication) by {
            lemma_not_among(
                owners_of(leave.after, key, leave.replication),
                owners_of(leave.before, key, leave.replication),
                node,
            );
        }
    }
}

/// A leave ends within its budget: the deadline is set once, as far ahead as the
/// budget, and the running handoff is asked to stop.
pub proof fn law_leave_has_one_deadline(
    slot: &mut Option<ActiveMigration>,
    budget: u128,
    now: u128,
    leave: Decommission,
)
    requires
        call_ensures(Decommission::begin, (slot, budget, now), leave),
    ensures
        now + budget <= u128::MAX ==> leave.deadline == now + budget,
        leave.deadline >= now,
        leave.phase is Stopping,
        leave.polls == 0,
        *old(slot) is Some <==> *final(slot) is Some,
        slot_view(*final(slot)) matches Some(after) ==> after.abort_requested,
{
}

/// A node that has handed entries over forwards after its leave, within what is
/// left of its time; one that has not is gone at once.
pub proof fn law_only_a_drained_node_forwards(
    leave: &mut Decommission,
    now: u128,
    action: LeaveAction,
)
    requires
        old(leave).phase is Leaving,
        call_ensures(Decommission::left, (leave, now), action),
    ensures
        action is Forward <==> old(leave).phase->handed_over is Some,
        action is Finish <==> old(leave).phase->handed_over is None,
        action matches LeaveAction::Forward(grace) ==> grace <= grace_after(
            old(leave).phase->handed_over->0 as nat,
        ) && (now <= old(leave).deadline ==> now + grace <= old(leave).deadline) && (now
            >= old(leave).deadline ==> grace == 0),
        final(leave).deadline == old(leave).deadline,
{
}

/// An entry that a leaving node hands over replaces what its target has; it
/// carries the key, the value and the time to live, and the target's own token.
pub proof fn law_drained_entries_replace_what_is_there(
    run: DrainRun,
    leave: LeaveState,
    self_name: &str,
    value: &[u8],
    ttl: Option<u128>,
    write: Option<ForwardedWrite>,
)
    requires
        run.wf(leave@, self_name@),
        run.drain(leave@, self_name@).phase == DrainPhase::Sending,
        call_ensures(DrainRun::write, (&run, &leave, self_name, value, ttl), write),
    ensures
        ({
            let drain = run.drain(leave@, self_name@);
            let current = drain.keys[drain.fates.len() as int];
            write matches Some(entry) && (entry@ matches WriteView::HandoffSet {
                key,
                value: sent,
                ttl: left,
                if_absent,
                token,
            } && !if_absent && key == current && sent == value@ && left == ttl && (
            leave@.destination(current, self_name@) matches Some(target) && token == target.token))
        }),
{
    law_drain_run_is_well_formed(run, leave@, self_name@);
    law_drain_follows_its_plan(run, leave@, self_name@);
}

} // verus!
