//! Making up for a node that is gone: every key it owned gets a new owner, and
//! one of the owners that are left sends it a copy.
use std::collections::HashMap;
use vstd::prelude::*;

use crate::cluster::Directory;
use crate::forward::ForwardedWrite;
use crate::forward::Transfer;
use crate::forward::TransferAction;
use crate::forward::WriteView;
use crate::key::key_views;
use crate::key::Key;
use crate::key::KeyView;
use crate::ring::joined_by;
use crate::ring::law_leave_promotes_one_node;
use crate::ring::law_owner_count;
use crate::ring::law_promoted_nodes_are_the_new_owners;
use crate::ring::lemma_not_among;
use crate::ring::owners_of;
use crate::ring::owns;
use crate::ring::promoted;
use crate::ring::promoted_owners;
use crate::ring::ranking;
use crate::ring::HashRing;
use crate::text::same_text;
use crate::text::str_views;
use crate::text::text_views;

verus! {

/// How long a handoff and a re-replication wait for one another.
pub const RING_CHANGE_HANDOFF_WAIT: u128 = 60_000_000_000;

pub const RING_CHANGE_POLL_INTERVAL: u128 = 100_000_000;

/// The first text of `list` that is in `nodes`.
pub open spec fn first_among(list: Seq<Seq<char>>, nodes: Seq<Seq<char>>) -> Option<Seq<char>>
    decreases list.len(),
{
    if list.len() == 0 {
        None
    } else if nodes.contains(list[0]) {
        Some(list[0])
    } else {
        first_among(list.drop_first(), nodes)
    }
}

/// The owner that sends a key: the best ranked one that is still there.
pub open spec fn elected_sender(
    before: Seq<Seq<char>>,
    after: Seq<Seq<char>>,
    key: KeyView,
    replication: nat,
) -> Option<Seq<char>> {
    first_among(owners_of(before, key, replication), after)
}

/// The nodes that `self_name` sends a key to: those that come to own it, if
/// `self_name` is the elected sender, else none.
pub open spec fn targets_of(
    before: Seq<Seq<char>>,
    after: Seq<Seq<char>>,
    key: KeyView,
    replication: nat,
    self_name: Seq<char>,
) -> Seq<Seq<char>> {
    if owns(before, key, self_name, replication) && elected_sender(before, after, key, replication)
        == Some(self_name) {
        promoted(before, after, key, replication)
    } else {
        Seq::empty()
    }
}

/// Whether `self_name` is the first of `owners` that is in `nodes`.
fn is_first_among(owners: &Vec<&str>, nodes: &HashRing, self_name: &str) -> (first: bool)
    ensures
        first == (first_among(str_views(owners@), nodes@) == Some(self_name@)),
{
    let ghost list = str_views(owners@);
    let mut index: usize = 0;
    assert(list.subrange(0, list.len() as int) =~= list);
    while index < owners.len()
        invariant
            index <= owners.len(),
            list == str_views(owners@),
            first_among(list, nodes@) == first_among(
                list.subrange(index as int, list.len() as int),
                nodes@,
            ),
        decreases owners.len() - index,
    {
        assert(list[index as int] == owners@[index as int]@);
        assert(list.subrange(index as int, list.len() as int).drop_first() =~= list.subrange(
            index + 1,
            list.len() as int,
        ));
        if nodes.has(owners[index]) {
            return same_text(owners[index], self_name);
        }
        index += 1;
    }
    false
}

/// The nodes to send a key to after the nodes changed from `before` to `after`.
pub fn rereplication_targets(
    before: &HashRing,
    after: &HashRing,
    key: &Key,
    replication: usize,
    self_name: &str,
) -> (targets: Vec<String>)
    ensures
        text_views(targets@) == targets_of(
            before@,
            after@,
            key@,
            replication as nat,
            self_name@,
        ),
{
    if !before.is_owner(key, self_name, replication) {
        let none: Vec<String> = Vec::new();
        assert(text_views(none@) =~= Seq::empty());
        return none;
    }
    if !is_first_among(&before.owners(key, replication), after, self_name) {
        let none: Vec<String> = Vec::new();
        assert(text_views(none@) =~= Seq::empty());
        return none;
    }
    promoted_owners(before, after, key, replication)
}

proof fn lemma_first_among(list: Seq<Seq<char>>, nodes: Seq<Seq<char>>)
    ensures
        match first_among(list, nodes) {
            Some(node) => list.contains(node) && nodes.contains(node),
            None => forall|node: Seq<char>| #[trigger]
                list.contains(node) ==> !nodes.contains(node),
        },
    decreases list.len(),
{
    if list.len() > 0 {
        let rest = list.drop_first();
        lemma_first_among(rest, nodes);
        assert(list[0] == list.first());
        match first_among(list, nodes) {
            Some(node) => {
                if !nodes.contains(list[0]) {
                    let i = rest.index_of(node);
                    assert(list[i + 1] == node);
                }
            },
            None => {
                assert forall|node: Seq<char>| #[trigger] list.contains(node) implies
                    !nodes.contains(node) by {
                    let i = list.index_of(node);
                    if i > 0 {
                        assert(rest[i - 1] == node);
                        assert(rest.contains(node));
                    }
                }
            },
        }
    }
}

/// At most one node sends a key.
pub proof fn law_one_sender_per_key(
    before: Seq<Seq<char>>,
    after: Seq<Seq<char>>,
    key: KeyView,
    replication: nat,
    a: Seq<char>,
    b: Seq<char>,
)
    requires
        targets_of(before, after, key, replication, a).len() > 0,
        targets_of(before, after, key, replication, b).len() > 0,
    ensures
        a == b,
{
}

/// Only nodes that own the key now and did not own it before are sent it.
pub proof fn law_targets_are_new_owners(
    before: Seq<Seq<char>>,
    after: Seq<Seq<char>>,
    key: KeyView,
    replication: nat,
    self_name: Seq<char>,
    target: Seq<char>,
)
    requires
        targets_of(before, after, key, replication, self_name).contains(target),
    ensures
        owns(after, key, target, replication),
        !owns(before, key, target, replication),
{
    lemma_not_among(
        owners_of(after, key, replication),
        owners_of(before, key, replication),
        target,
    );
}

/// When one node is evicted, a key that it owned together with others is sent,
/// by one of those, to the node ranked just behind the owners, if there is one.
pub proof fn law_eviction_is_made_up_for(
    before: Seq<Seq<char>>,
    after: Seq<Seq<char>>,
    evicted: Seq<char>,
    key: KeyView,
    replication: nat,
    survivor: Seq<char>,
)
    requires
        joined_by(after, before, evicted),
        owns(before, key, evicted, replication),
        owns(before, key, survivor, replication),
        survivor != evicted,
        before.len() > replication,
    ensures
        elected_sender(before, after, key, replication) matches Some(sender) && sender != evicted
            && owns(before, key, sender, replication) && targets_of(
            before,
            after,
            key,
            replication,
            sender,
        ) == seq![ranking(before, key)[replication as int]],
{
    let owners = owners_of(before, key, replication);
    lemma_first_among(owners, after);
    law_owner_count(before, key, replication);
    assert(before.contains(survivor));
    assert(after.contains(survivor));
    assert(owners.contains(survivor));
    law_leave_promotes_one_node(before, after, evicted, key, replication);
}

/// A re-replication that holds, or waits for, the node's one slot.
#[derive(Clone, Copy, Debug, PartialEq, Eq, Structural)]
pub struct ActiveRereplication {
    /// A number that no other run has.
    pub id: u64,
}

/// Puts a run into the slot and tells which one it takes it from, in one step.
pub fn take_over_rereplication_slot(
    slot: &mut Option<ActiveRereplication>,
    state: ActiveRereplication,
) -> (previous: Option<ActiveRereplication>)
    ensures
        *final(slot) == Some(state),
        previous == *old(slot),
{
    let previous = *slot;
    *slot = Some(state);
    previous
}

/// Who has the slot once a series of runs has taken it over, one after the other.
pub open spec fn occupant_after(
    slot: Option<ActiveRereplication>,
    runs: Seq<ActiveRereplication>,
) -> Option<ActiveRereplication> {
    if runs.len() == 0 {
        slot
    } else {
        Some(runs.last())
    }
}

/// What each of a series of runs takes the slot from: whoever has it after the
/// runs before.
pub open spec fn taken_from(
    slot: Option<ActiveRereplication>,
    runs: Seq<ActiveRereplication>,
) -> Seq<Option<ActiveRereplication>>
    decreases runs.len(),
{
    if runs.len() == 0 {
        Seq::empty()
    } else {
        let before = runs.drop_last();
        taken_from(slot, before).push(occupant_after(slot, before))
    }
}

/// Runs, each as the one that has the slot.
pub open spec fn occupants(runs: Seq<ActiveRereplication>) -> Seq<Option<ActiveRereplication>> {
    runs.map_values(|run: ActiveRereplication| Some(run))
}

/// No two runs take the slot from the same run, and none is passed over: what
/// the runs take it from, and who has it in the end, are the first occupant, if
/// there was one, and the runs themselves, each once.
pub proof fn law_no_two_runs_chain_behind_one(
    slot: Option<ActiveRereplication>,
    runs: Seq<ActiveRereplication>,
)
    requires
        runs.no_duplicates(),
        slot matches Some(first) ==> !runs.contains(first),
    ensures
        taken_from(slot, runs).push(occupant_after(slot, runs)) == seq![slot] + occupants(runs),
        taken_from(slot, runs).push(occupant_after(slot, runs)).no_duplicates(),
        taken_from(slot, runs).no_duplicates(),
        taken_from(slot, runs).len() == runs.len(),
{
    lemma_taken_from(slot, runs);
    let taken = taken_from(slot, runs);
    let all = taken.push(occupant_after(slot, runs));
    assert forall|i: int, j: int| 0 <= i < j < all.len() implies all[i] != all[j] by {
        assert(all[j] == Some(runs[j - 1]));
        if i > 0 {
            assert(all[i] == Some(runs[i - 1]));
        } else {
            assert(runs.contains(runs[j - 1]));
        }
    }
    assert forall|i: int, j: int| 0 <= i < j < taken.len() implies taken[i] != taken[j] by {
        assert(all[i] == taken[i] && all[j] == taken[j]);
    }
}

proof fn lemma_taken_from(slot: Option<ActiveRereplication>, runs: Seq<ActiveRereplication>)
    ensures
        taken_from(slot, runs).push(occupant_after(slot, runs)) == seq![slot] + occupants(runs),
        taken_from(slot, runs).len() == runs.len(),
    decreases runs.len(),
{
    if runs.len() == 0 {
        assert(taken_from(slot, runs).push(slot) =~= seq![slot] + occupants(runs));
    } else {
        lemma_taken_from(slot, runs.drop_last());
        assert(occupants(runs) =~= occupants(runs.drop_last()).push(Some(runs.last())));
        assert(taken_from(slot, runs).push(Some(runs.last())) =~= seq![slot] + occupants(runs));
    }
}

/// Frees the slot when a run ends, unless a later run has taken it over.
pub fn finish_rereplication(slot: &mut Option<ActiveRereplication>, state: ActiveRereplication)
    ensures
        *final(slot) == if *old(slot) == Some(state) {
            None
        } else {
            *old(slot)
        },
{
    match *slot {
        Some(current) => {
            if current.id == state.id {
                *slot = None;
            }
        },
        None => {},
    }
}

/// The re-replications of a node: the one that has its slot, and those that have
/// not ended yet.
#[derive(Debug)]
pub struct Rereplications {
    active: Option<ActiveRereplication>,
    /// By number, whether each is asked to stop.
    running: HashMap<u64, bool>,
}

#[verifier::ext_equal]
pub struct RereplicationsView {
    pub active: Option<ActiveRereplication>,
    pub running: Map<u64, bool>,
}

impl View for Rereplications {
    type V = RereplicationsView;

    closed spec fn view(&self) -> RereplicationsView {
        RereplicationsView { active: self.active, running: self.running@ }
    }
}

impl RereplicationsView {
    /// The runs that have not ended, once the one that has the slot is asked to
    /// stop.
    pub open spec fn with_active_stopped(self) -> Map<u64, bool> {
        match self.active {
            Some(previous) => if self.running.contains_key(previous.id) {
                self.running.insert(previous.id, true)
            } else {
                self.running
            },
            None => self.running,
        }
    }

    /// The runs once another one has begun.
    pub open spec fn after_begin(self, run: ActiveRereplication) -> RereplicationsView {
        RereplicationsView {
            active: Some(run),
            running: self.with_active_stopped().insert(run.id, false),
        }
    }

    /// The runs once one has ended.
    pub open spec fn after_finish(self, run: ActiveRereplication) -> RereplicationsView {
        RereplicationsView {
            active: if self.active == Some(run) {
                None
            } else {
                self.active
            },
            running: self.running.remove(run.id),
        }
    }

    /// Whether a run has to stop.
    pub open spec fn is_stopped(self, run: ActiveRereplication) -> bool {
        self.running.contains_key(run.id) && self.running[run.id]
    }
}

impl Rereplications {
    pub fn new() -> (runs: Rereplications)
        ensures
            runs@.active is None,
            runs@.running == Map::<u64, bool>::empty(),
    {
        let runs = Rereplications { active: None, running: HashMap::new() };
        assert(runs@.running =~= Map::<u64, bool>::empty());
        runs
    }

    /// Begins a run: it takes the slot over, in one step, and the run that had it
    /// is asked to stop. The new one waits for that one to end.
    pub fn begin(&mut self, run: ActiveRereplication) -> (previous: Option<ActiveRereplication>)
        ensures
            previous == old(self)@.active,
            final(self)@ == old(self)@.after_begin(run),
    {
        broadcast use vstd::std_specs::hash::group_hash_axioms;

        let previous = take_over_rereplication_slot(&mut self.active, run);
        if let Some(displaced) = previous {
            if self.running.contains_key(&displaced.id) {
                self.running.insert(displaced.id, true);
            }
        }
        self.running.insert(run.id, false);
        previous
    }

    /// Whether a run is asked to stop.
    pub fn is_stopped(&self, run: ActiveRereplication) -> (stopped: bool)
        ensures
            stopped == self@.is_stopped(run),
    {
        broadcast use vstd::std_specs::hash::group_hash_axioms;

        match self.running.get(&run.id) {
            Some(stopped) => *stopped,
            None => false,
        }
    }

    /// Whether a run has not ended yet.
    pub fn is_running(&self, run: ActiveRereplication) -> (running: bool)
        ensures
            running == self@.running.contains_key(run.id),
    {
        broadcast use vstd::std_specs::hash::group_hash_axioms;

        self.running.contains_key(&run.id)
    }

    /// Whether a run has the slot.
    pub fn is_busy(&self) -> (busy: bool)
        ensures
            busy == (self@.active is Some),
    {
        self.active.is_some()
    }

    /// Ends a run. The slot is freed, unless a later run has taken it over.
    pub fn finish(&mut self, run: ActiveRereplication)
        ensures
            final(self)@ == old(self)@.after_finish(run),
    {
        broadcast use vstd::std_specs::hash::group_hash_axioms;

        self.running.remove(&run.id);
        finish_rereplication(&mut self.active, run);
    }
}

/// A run that begins while another has the slot displaces it: the other is asked
/// to stop, and whichever of the two ends first, the slot is the later one's until
/// that one ends.
pub proof fn law_later_run_displaces_the_one_before(
    runs: RereplicationsView,
    first: ActiveRereplication,
    second: ActiveRereplication,
)
    requires
        first != second,
    ensures
        ({
            let both = runs.after_begin(first).after_begin(second);
            &&& both.is_stopped(first)
            &&& !both.is_stopped(second)
            &&& both.after_finish(first).active == Some(second)
            &&& !both.after_finish(first).running.contains_key(first.id)
            &&& both.after_finish(first).after_finish(second).active is None
            &&& both.after_finish(second).active is None
        }),
{
}

/// Whether to wait, until `deadline`, for what is in the way.
pub fn ring_change_waits(busy: bool, now: u128, deadline: u128) -> (wait: bool)
    ensures
        wait == (busy && now < deadline),
{
    busy && now < deadline
}

impl Transfer {
    /// The next step of a transfer that may be called off before an attempt.
    pub fn next_unless_stopped(&self, stop: bool) -> (action: TransferAction)
        ensures
            action == if stop && self.action() != TransferAction::Delivered {
                TransferAction::GiveUp
            } else {
                self.action()
            },
    {
        let action = self.next();
        if stop && !self.delivered {
            TransferAction::GiveUp
        } else {
            action
        }
    }
}

#[derive(Clone, Copy, Debug, PartialEq, Eq, Structural)]
pub enum CopyPhase {
    Choosing,
    Peeking,
    /// The copies of a key are sent, one target after the other.
    Copying,
    /// A copy is on its way to the target whose turn it is.
    Sending,
    Finished,
}

/// What a re-replication asks for.
#[derive(Clone, Copy, Debug, PartialEq, Eq, Structural)]
pub enum CopyStep {
    /// Take the next key.
    NextKey,
    /// Read the entry of `CopyRun::current`.
    Peek,
    /// Take the next target of the key.
    NextTarget,
    /// Send the entry to `CopyRun::target`, to be kept only where there is none.
    Send,
    Finished,
}

/// One copy of a key that a re-replication had to make.
#[verifier::ext_equal]
pub struct CopyView {
    pub key: KeyView,
    pub target: Seq<char>,
    pub delivered: bool,
}

/// A re-replication as a whole.
#[verifier::ext_equal]
pub struct CopyRunView {
    pub before: Seq<Seq<char>>,
    pub after: Seq<Seq<char>>,
    pub replication: nat,
    pub self_name: Seq<char>,
    pub addresses: Map<Seq<char>, Seq<char>>,
    pub tokens: Map<Seq<char>, Seq<char>>,
    pub keys: Seq<KeyView>,
    /// How many keys have had their turn.
    pub next: nat,
    /// How many targets of the current key have had theirs.
    pub served: nat,
    /// The copies made or missed, in order.
    pub copies: Seq<CopyView>,
    /// The keys that had no entry any more when their turn came.
    pub gone: Seq<KeyView>,
    pub phase: CopyPhase,
}

pub open spec fn copies_delivered(copies: Seq<CopyView>) -> nat
    decreases copies.len(),
{
    if copies.len() == 0 {
        0
    } else {
        copies_delivered(copies.drop_last()) + if copies.last().delivered {
            1nat
        } else {
            0
        }
    }
}

impl CopyRunView {
    /// The nodes that a key is sent to.
    pub open spec fn targets(self, key: KeyView) -> Seq<Seq<char>> {
        targets_of(self.before, self.after, key, self.replication, self.self_name)
    }

    /// Whether it is known how to reach a node.
    pub open spec fn reaches(self, node: Seq<char>) -> bool {
        self.addresses.contains_key(node) && self.tokens.contains_key(node)
    }

    /// The current key.
    pub open spec fn key(self) -> KeyView {
        self.keys[self.next as int]
    }

    /// The target whose turn it is.
    pub open spec fn target(self) -> Seq<char> {
        self.targets(self.key())[self.served as int]
    }

    /// Whether a copy of a key for a target was made or missed.
    pub open spec fn tried(self, key: KeyView, target: Seq<char>) -> bool {
        exists|i: int|
            0 <= i < self.copies.len() && (#[trigger] self.copies[i]).key == key
                && self.copies[i].target == target
    }

    /// Whether every target of a key has had its turn.
    pub open spec fn served_all(self, key: KeyView, count: nat) -> bool {
        forall|i: int| 0 <= i < count ==> self.tried(key, #[trigger] self.targets(key)[i])
    }

    /// Whether each of the keys that have had their turn was gone, or has had
    /// each of its targets served.
    #[verifier::opaque]
    pub open spec fn accounts(self) -> bool {
        forall|i: int|
            0 <= i < self.next ==> self.gone.contains(#[trigger] self.keys[i]) || self.served_all(
                self.keys[i],
                self.targets(self.keys[i]).len(),
            )
    }

    pub open spec fn wf(self) -> bool {
        &&& self.next <= self.keys.len()
        &&& self.accounts()
        &&& self.phase == CopyPhase::Copying || self.phase == CopyPhase::Sending
            ==> self.served_all(self.key(), self.served)
        &&& self.phase == CopyPhase::Peeking ==> self.served == 0
        &&& forall|i: int|
            0 <= i < self.copies.len() ==> self.targets(
                (#[trigger] self.copies[i]).key,
            ).contains(self.copies[i].target)
        &&& forall|i: int|
            0 <= i < self.copies.len() && (#[trigger] self.copies[i]).delivered ==> self.reaches(
                self.copies[i].target,
            )
        &&& self.phase == CopyPhase::Peeking || self.phase == CopyPhase::Copying || self.phase
            == CopyPhase::Sending ==> {
            &&& self.next < self.keys.len()
            &&& self.served <= self.targets(self.key()).len()
            &&& self.targets(self.key()).len() > 0
        }
        &&& self.phase == CopyPhase::Sending ==> self.served < self.targets(self.key()).len()
            && self.reaches(self.target())
    }

    /// The run once the current target has had its turn.
    pub open spec fn after_copy(self, delivered: bool) -> CopyRunView {
        CopyRunView {
            served: self.served + 1,
            copies: self.copies.push(
                CopyView { key: self.key(), target: self.target(), delivered },
            ),
            phase: CopyPhase::Copying,
            ..self
        }
    }

    /// The run on its way to the key after the current one.
    pub open spec fn after_key(self) -> CopyRunView {
        CopyRunView { next: self.next + 1, served: 0, phase: CopyPhase::Choosing, ..self }
    }

    /// The run once the current key was found to be gone.
    pub open spec fn after_gone(self) -> CopyRunView {
        CopyRunView { gone: self.gone.push(self.key()), ..self.after_key() }
    }
}

proof fn lemma_after_key(run: CopyRunView)
    requires
        run.wf(),
        run.next < run.keys.len(),
        run.served_all(run.key(), run.targets(run.key()).len()),
    ensures
        run.after_key().wf(),
{
    reveal(CopyRunView::accounts);
    let end = run.after_key();
    assert forall|i: int| 0 <= i < end.next implies end.gone.contains(#[trigger] end.keys[i])
        || end.served_all(end.keys[i], end.targets(end.keys[i]).len()) by {
        if i < run.next {
            assert(run.gone.contains(run.keys[i]) || run.served_all(
                run.keys[i],
                run.targets(run.keys[i]).len(),
            ));
            if run.served_all(run.keys[i], run.targets(run.keys[i]).len()) {
                lemma_served_stays(run, end, run.keys[i], run.targets(run.keys[i]).len());
            }
        } else {
            lemma_served_stays(run, end, run.key(), run.targets(run.key()).len());
        }
    }
    assert forall|i: int| 0 <= i < end.copies.len() implies end.targets(
        (#[trigger] end.copies[i]).key,
    ).contains(end.copies[i].target) by {
        assert(run.targets(run.copies[i].key).contains(run.copies[i].target));
    }
}

proof fn lemma_after_gone(run: CopyRunView)
    requires
        run.wf(),
        run.next < run.keys.len(),
    ensures
        run.after_gone().wf(),
{
    reveal(CopyRunView::accounts);
    let end = run.after_gone();
    assert(end.gone[run.gone.len() as int] == run.key());
    assert forall|i: int| 0 <= i < end.next implies end.gone.contains(#[trigger] end.keys[i])
        || end.served_all(end.keys[i], end.targets(end.keys[i]).len()) by {
        if i < run.next {
            if run.gone.contains(run.keys[i]) {
                let place = run.gone.index_of(run.keys[i]);
                assert(end.gone[place] == run.keys[i]);
            } else {
                lemma_served_stays(run, end, run.keys[i], run.targets(run.keys[i]).len());
            }
        }
    }
    assert forall|i: int| 0 <= i < end.copies.len() implies end.targets(
        (#[trigger] end.copies[i]).key,
    ).contains(end.copies[i].target) by {
        assert(run.targets(run.copies[i].key).contains(run.copies[i].target));
    }
}

/// A change of phase alone changes nothing of what has been done.
proof fn lemma_accounts_stay(run: CopyRunView, end: CopyRunView)
    requires
        run.accounts(),
        end == (CopyRunView { phase: end.phase, served: end.served, ..run }),
    ensures
        end.accounts(),
        forall|key: KeyView, count: nat| #[trigger]
            end.served_all(key, count) == run.served_all(key, count),
{
    reveal(CopyRunView::accounts);
    assert forall|key: KeyView, count: nat| #[trigger]
        end.served_all(key, count) == run.served_all(key, count) by {
        if run.served_all(key, count) {
            lemma_served_stays(run, end, key, count);
        }
        if end.served_all(key, count) {
            lemma_served_stays(end, run, key, count);
        }
    }
    assert forall|i: int| 0 <= i < end.next implies end.gone.contains(#[trigger] end.keys[i])
        || end.served_all(end.keys[i], end.targets(end.keys[i]).len()) by {
        assert(run.gone.contains(run.keys[i]) || run.served_all(
            run.keys[i],
            run.targets(run.keys[i]).len(),
        ));
    }
}

/// What has been tried stays tried when copies are added.
proof fn lemma_served_stays(run: CopyRunView, end: CopyRunView, key: KeyView, count: nat)
    requires
        run.served_all(key, count),
        run.before == end.before,
        run.after == end.after,
        run.replication == end.replication,
        run.self_name == end.self_name,
        run.copies.len() <= end.copies.len(),
        forall|i: int| 0 <= i < run.copies.len() ==> run.copies[i] == #[trigger] end.copies[i],
    ensures
        end.served_all(key, count),
{
    assert forall|i: int| 0 <= i < count implies end.tried(
        key,
        #[trigger] end.targets(key)[i],
    ) by {
        let target = run.targets(key)[i];
        assert(run.tried(key, target));
        let place = choose|place: int|
            0 <= place < run.copies.len() && (#[trigger] run.copies[place]).key == key
                && run.copies[place].target == target;
        assert(end.copies[place] == run.copies[place]);
    }
}

proof fn lemma_after_copy(run: CopyRunView, delivered: bool)
    requires
        run.wf(),
        run.phase == CopyPhase::Copying || run.phase == CopyPhase::Sending,
        run.served < run.targets(run.key()).len(),
        delivered ==> run.reaches(run.target()),
    ensures
        run.after_copy(delivered).wf(),
        copies_delivered(run.after_copy(delivered).copies) == copies_delivered(run.copies)
            + if delivered {
            1nat
        } else {
            0
        },
{
    reveal(CopyRunView::accounts);
    let end = run.after_copy(delivered);
    assert(end.copies.drop_last() =~= run.copies);
    assert(run.targets(run.key())[run.served as int] == run.target());
    assert(end.key() == run.key());
    assert forall|i: int| 0 <= i < end.next implies end.gone.contains(#[trigger] end.keys[i])
        || end.served_all(end.keys[i], end.targets(end.keys[i]).len()) by {
        assert(run.gone.contains(run.keys[i]) || run.served_all(
            run.keys[i],
            run.targets(run.keys[i]).len(),
        ));
        if run.served_all(run.keys[i], run.targets(run.keys[i]).len()) {
            lemma_served_stays(run, end, run.keys[i], run.targets(run.keys[i]).len());
        }
    }
    lemma_served_stays(run, end, run.key(), run.served);
    assert forall|i: int| 0 <= i < end.served implies end.tried(
        end.key(),
        #[trigger] end.targets(end.key())[i],
    ) by {
        if i == run.served {
            let last = end.copies[run.copies.len() as int];
            assert(last.key == end.key() && last.target == run.target());
        } else {
            assert(end.served_all(run.key(), run.served));
        }
    }
    assert forall|i: int| 0 <= i < end.copies.len() implies end.targets(
        (#[trigger] end.copies[i]).key,
    ).contains(end.copies[i].target) by {
        if i < run.copies.len() {
            assert(run.targets(run.copies[i].key).contains(run.copies[i].target));
        }
    }
    assert forall|i: int|
        0 <= i < end.copies.len() && (#[trigger] end.copies[i]).delivered implies end.reaches(
        end.copies[i].target,
    ) by {
        if i < run.copies.len() {
            assert(run.copies[i].delivered);
        }
    }
}

proof fn lemma_copies_bound(copies: Seq<CopyView>)
    ensures
        copies_delivered(copies) <= copies.len(),
    decreases copies.len(),
{
    if copies.len() > 0 {
        lemma_copies_bound(copies.drop_last());
    }
}

/// A re-replication in progress.
pub struct CopyRun {
    self_name: String,
    replication: usize,
    before_ring: HashRing,
    after_ring: HashRing,
    addresses: Directory,
    tokens: Directory,
    keys: Vec<Key>,
    next: usize,
    targets: Vec<String>,
    served: usize,
    sent: u64,
    skipped: u64,
    phase: CopyPhase,
    copies: Ghost<Seq<CopyView>>,
    gone: Ghost<Seq<KeyView>>,
}

impl View for CopyRun {
    type V = CopyRunView;

    closed spec fn view(&self) -> CopyRunView {
        CopyRunView {
            before: self.before_ring@,
            after: self.after_ring@,
            replication: self.replication as nat,
            self_name: self.self_name@,
            addresses: self.addresses@,
            tokens: self.tokens@,
            keys: key_views(self.keys@),
            next: self.next as nat,
            served: self.served as nat,
            copies: self.copies@,
            gone: self.gone@,
            phase: self.phase,
        }
    }
}

/// What holds of every well-formed re-replication as a whole holds of a run.
pub proof fn law_copy_run_is_well_formed(run: CopyRun)
    requires
        run.wf(),
    ensures
        run@.wf(),
{
}

/// A count that stops at the largest number it can hold.
pub open spec fn saturated(count: nat) -> u64 {
    if count <= u64::MAX {
        count as u64
    } else {
        u64::MAX
    }
}

impl CopyRun {
    pub closed spec fn wf(self) -> bool {
        &&& self@.wf()
        &&& self@.phase == CopyPhase::Peeking || self@.phase == CopyPhase::Copying || self@.phase
            == CopyPhase::Sending ==> text_views(self.targets@) == self@.targets(self@.key())
        &&& self.sent == saturated(copies_delivered(self.copies@))
        &&& self.skipped == saturated(
            (self.copies@.len() - copies_delivered(self.copies@)) as nat,
        )
    }

    pub fn new(
        self_name: String,
        replication: usize,
        before_ring: HashRing,
        after_ring: HashRing,
        addresses: Directory,
        tokens: Directory,
        keys: Vec<Key>,
    ) -> (run: CopyRun)
        ensures
            run.wf(),
            run@ == (CopyRunView {
                before: before_ring@,
                after: after_ring@,
                replication: replication as nat,
                self_name: self_name@,
                addresses: addresses@,
                tokens: tokens@,
                keys: key_views(keys@),
                next: 0,
                served: 0,
                copies: Seq::empty(),
                gone: Seq::empty(),
                phase: CopyPhase::Choosing,
            }),
    {
        proof {
            reveal(CopyRunView::accounts);
        }
        CopyRun {
            self_name,
            replication,
            before_ring,
            after_ring,
            addresses,
            tokens,
            keys,
            next: 0,
            targets: Vec::new(),
            served: 0,
            sent: 0,
            skipped: 0,
            phase: CopyPhase::Choosing,
            copies: Ghost(Seq::empty()),
            gone: Ghost(Seq::empty()),
        }
    }

    /// How many copies were delivered.
    pub fn sent(&self) -> (count: u64)
        requires
            self.wf(),
        ensures
            count == saturated(copies_delivered(self@.copies)),
    {
        self.sent
    }

    /// How many copies could not be.
    pub fn skipped(&self) -> (count: u64)
        requires
            self.wf(),
        ensures
            count == saturated((self@.copies.len() - copies_delivered(self@.copies)) as nat),
    {
        self.skipped
    }

    /// The key whose turn it is.
    pub fn current(&self) -> (key: &Key)
        requires
            self.wf(),
            self@.phase == CopyPhase::Peeking || self@.phase == CopyPhase::Sending,
        ensures
            key@ == self@.key(),
    {
        &self.keys[self.next]
    }

    /// The name of the target whose turn it is.
    pub fn target(&self) -> (name: &str)
        requires
            self.wf(),
            self@.phase == CopyPhase::Sending,
        ensures
            name@ == self@.target(),
    {
        assert(text_views(self.targets@)[self.served as int] == self.targets@[self.served as int]@);
        self.targets[self.served].as_str()
    }

    /// The address and the token of that target.
    pub fn destination(&self) -> (destination: Option<(&str, &str)>)
        requires
            self.wf(),
            self@.phase == CopyPhase::Sending,
        ensures
            destination matches Some((addr, token)) && addr@ == self@.addresses[self@.target()]
                && token@ == self@.tokens[self@.target()],
    {
        let name = self.target();
        match self.addresses.get(name) {
            Some(addr) => match self.tokens.get(name) {
                Some(token) => Some((addr, token)),
                None => None,
            },
            None => None,
        }
    }

    /// The current copy as it is sent to the target. It gives way to what the
    /// target has, which can only be newer.
    pub fn write<'a>(&'a self, value: &'a [u8], ttl: Option<u128>) -> (write: Option<
        ForwardedWrite<'a>,
    >)
        requires
            self.wf(),
            self@.phase == CopyPhase::Sending,
        ensures
            write matches Some(copy) && copy@ == (WriteView::HandoffSet {
                key: self@.key(),
                value: value@,
                ttl,
                if_absent: true,
                token: self@.tokens[self@.target()],
            }),
    {
        match self.destination() {
            Some((_, token)) => Some(
                ForwardedWrite::HandoffSet {
                    key: self.current(),
                    value,
                    ttl,
                    if_absent: true,
                    token,
                },
            ),
            None => None,
        }
    }

    /// Takes the next key, unless the run is called off.
    pub fn next_key(&mut self, stop: bool) -> (step: CopyStep)
        requires
            old(self).wf(),
            old(self)@.phase == CopyPhase::Choosing,
        ensures
            final(self).wf(),
            if stop || old(self)@.next == old(self)@.keys.len() {
                step == CopyStep::Finished && final(self)@ == (CopyRunView {
                    phase: CopyPhase::Finished,
                    ..old(self)@
                })
            } else if old(self)@.targets(old(self)@.key()).len() == 0 {
                step == CopyStep::NextKey && final(self)@ == old(self)@.after_key()
            } else {
                step == CopyStep::Peek && final(self)@ == (CopyRunView {
                    served: 0,
                    phase: CopyPhase::Peeking,
                    ..old(self)@
                })
            },
    {
        let ghost start = self@;
        if stop || self.next >= self.keys.len() {
            self.phase = CopyPhase::Finished;
            proof {
                lemma_accounts_stay(start, self@);
            }
            return CopyStep::Finished;
        }
        let total: usize = self.keys.len();
        assert(self.next < total);
        let targets = rereplication_targets(
            &self.before_ring,
            &self.after_ring,
            &self.keys[self.next],
            self.replication,
            self.self_name.as_str(),
        );
        assert(text_views(targets@) == start.targets(start.key()));
        self.served = 0;
        if targets.len() == 0 {
            self.next = self.next + 1;
            assert(self@ =~= start.after_key());
            proof {
                lemma_after_key(start);
            }
            return CopyStep::NextKey;
        }
        self.targets = targets;
        self.phase = CopyPhase::Peeking;
        assert(self@.key() == start.key());
        proof {
            lemma_accounts_stay(start, self@);
        }
        CopyStep::Peek
    }

    /// The current key has an entry, or it is gone.
    pub fn peeked(&mut self, present: bool) -> (step: CopyStep)
        requires
            old(self).wf(),
            old(self)@.phase == CopyPhase::Peeking,
        ensures
            final(self).wf(),
            if present {
                step == CopyStep::NextTarget && final(self)@ == (CopyRunView {
                    phase: CopyPhase::Copying,
                    ..old(self)@
                })
            } else {
                step == CopyStep::NextKey && final(self)@ == old(self)@.after_gone()
            },
    {
        let ghost start = self@;
        let total: usize = self.keys.len();
        assert(self.next < total);
        if present {
            self.phase = CopyPhase::Copying;
            assert(self@.key() == start.key());
            proof {
                lemma_accounts_stay(start, self@);
            }
            CopyStep::NextTarget
        } else {
            self.gone = Ghost(start.gone.push(start.key()));
            self.next = self.next + 1;
            self.served = 0;
            self.phase = CopyPhase::Choosing;
            assert(self@ =~= start.after_gone());
            proof {
                lemma_after_gone(start);
            }
            CopyStep::NextKey
        }
    }

    /// Takes the next target; one that cannot be reached is passed over.
    pub fn next_target(&mut self) -> (step: CopyStep)
        requires
            old(self).wf(),
            old(self)@.phase == CopyPhase::Copying,
        ensures
            final(self).wf(),
            if old(self)@.served == old(self)@.targets(old(self)@.key()).len() {
                step == CopyStep::NextKey && final(self)@ == old(self)@.after_key()
            } else if !old(self)@.reaches(old(self)@.target()) {
                step == CopyStep::NextTarget && final(self)@ == old(self)@.after_copy(false)
            } else {
                step == CopyStep::Send && final(self)@ == (CopyRunView {
                    phase: CopyPhase::Sending,
                    ..old(self)@
                })
            },
    {
        let ghost start = self@;
        let total: usize = self.keys.len();
        assert(self.next < total);
        assert(text_views(self.targets@).len() == self.targets@.len());
        if self.served >= self.targets.len() {
            self.next = self.next + 1;
            self.served = 0;
            self.phase = CopyPhase::Choosing;
            assert(self@ =~= start.after_key());
            proof {
                lemma_after_key(start);
            }
            return CopyStep::NextKey;
        }
        assert(text_views(self.targets@)[self.served as int] == self.targets@[self.served as int]@);
        let name = self.targets[self.served].clone();
        assert(name@ == start.target());
        if self.addresses.get(name.as_str()).is_none() || self.tokens.get(
            name.as_str(),
        ).is_none() {
            self.count_copy(false);
            return CopyStep::NextTarget;
        }
        self.phase = CopyPhase::Sending;
        assert(self@.key() == start.key());
        proof {
            lemma_accounts_stay(start, self@);
        }
        CopyStep::Send
    }

    fn count_copy(&mut self, delivered: bool)
        requires
            old(self).wf(),
            old(self)@.phase == CopyPhase::Copying || old(self)@.phase == CopyPhase::Sending,
            old(self)@.served < old(self)@.targets(old(self)@.key()).len(),
            delivered ==> old(self)@.reaches(old(self)@.target()),
        ensures
            final(self).wf(),
            final(self)@ == old(self)@.after_copy(delivered),
    {
        let ghost start = self@;
        let count: usize = self.targets.len();
        assert(text_views(self.targets@).len() == self.targets@.len());
        assert(self.served < count);
        proof {
            lemma_after_copy(start, delivered);
            lemma_copies_bound(start.copies);
        }
        self.copies = Ghost(
            start.copies.push(CopyView { key: start.key(), target: start.target(), delivered }),
        );
        if delivered {
            self.sent = self.sent.saturating_add(1);
        } else {
            self.skipped = self.skipped.saturating_add(1);
        }
        self.served = self.served + 1;
        self.phase = CopyPhase::Copying;
        assert(self@ =~= start.after_copy(delivered));
        assert(self@.key() == start.key());
    }

    /// The current copy was acknowledged, or could not be delivered.
    pub fn copied(&mut self, delivered: bool)
        requires
            old(self).wf(),
            old(self)@.phase == CopyPhase::Sending,
        ensures
            final(self).wf(),
            final(self)@ == old(self)@.after_copy(delivered),
    {
        self.count_copy(delivered);
    }
}

/// A re-replication that has been through its keys has forgotten none: a key was
/// gone when its turn came, or a copy was made or counted as missed for every
/// node it has to go to.
pub proof fn law_rereplication_accounts_for_every_key(
    run: CopyRunView,
    index: int,
    target: Seq<char>,
)
    requires
        run.wf(),
        run.next == run.keys.len(),
        0 <= index < run.keys.len(),
        run.targets(run.keys[index]).contains(target),
    ensures
        run.gone.contains(run.keys[index]) || run.tried(run.keys[index], target),
{
    reveal(CopyRunView::accounts);
    let key = run.keys[index];
    assert(run.gone.contains(key) || run.served_all(key, run.targets(key).len()));
    let place = run.targets(key).index_of(target);
    assert(run.targets(key)[place] == target);
}

/// However a re-replication goes, it sends a key only to nodes that come to own
/// it and only as the elected sender.
pub proof fn law_copies_go_to_new_owners_only(run: CopyRunView, index: int)
    requires
        run.wf(),
        0 <= index < run.copies.len(),
    ensures
        ({
            let copy = run.copies[index];
            &&& owns(run.after, copy.key, copy.target, run.replication)
            &&& !owns(run.before, copy.key, copy.target, run.replication)
            &&& elected_sender(run.before, run.after, copy.key, run.replication) == Some(
                run.self_name,
            )
        }),
{
    let copy = run.copies[index];
    assert(run.targets(copy.key).contains(copy.target));
    law_targets_are_new_owners(
        run.before,
        run.after,
        copy.key,
        run.replication,
        run.self_name,
        copy.target,
    );
}

/// The sender of a key is the best ranked of its owners that are left: it owned
/// the key, it is still there, and every owner ranked before it is gone. There
/// is none just if every owner is gone.
pub proof fn law_sender_is_the_best_owner_left(
    before: Seq<Seq<char>>,
    after: Seq<Seq<char>>,
    key: KeyView,
    replication: nat,
)
    ensures
        match elected_sender(before, after, key, replication) {
            Some(sender) => exists|place: int|
                0 <= place < owners_of(before, key, replication).len() && #[trigger] owners_of(
                    before,
                    key,
                    replication,
                )[place] == sender && after.contains(sender) && (forall|i: int|
                    0 <= i < place ==> !after.contains(
                        #[trigger] owners_of(before, key, replication)[i],
                    )),
            None => forall|i: int|
                0 <= i < owners_of(before, key, replication).len() ==> !after.contains(
                    #[trigger] owners_of(before, key, replication)[i],
                ),
        },
{
    lemma_first_among_place(owners_of(before, key, replication), after);
}

proof fn lemma_first_among_place(list: Seq<Seq<char>>, nodes: Seq<Seq<char>>)
    ensures
        match first_among(list, nodes) {
            Some(node) => exists|place: int|
                0 <= place < list.len() && #[trigger] list[place] == node && nodes.contains(node)
                    && (forall|i: int| 0 <= i < place ==> !nodes.contains(#[trigger] list[i])),
            None => forall|i: int| 0 <= i < list.len() ==> !nodes.contains(#[trigger] list[i]),
        },
    decreases list.len(),
{
    if list.len() > 0 && !nodes.contains(list[0]) {
        let rest = list.drop_first();
        lemma_first_among_place(rest, nodes);
        match first_among(rest, nodes) {
            Some(node) => {
                let place = choose|place: int|
                    0 <= place < rest.len() && #[trigger] rest[place] == node && nodes.contains(node)
                        && (forall|i: int| 0 <= i < place ==> !nodes.contains(#[trigger] rest[i]));
                assert(list[place + 1] == node);
                assert forall|i: int| 0 <= i < place + 1 implies !nodes.contains(
                    #[trigger] list[i],
                ) by {
                    if i > 0 {
                        assert(list[i] == rest[i - 1]);
                    }
                }
            },
            None => {
                assert forall|i: int| 0 <= i < list.len() implies !nodes.contains(
                    #[trigger] list[i],
                ) by {
                    if i > 0 {
                        assert(list[i] == rest[i - 1]);
                    }
                }
            },
        }
    } else if list.len() > 0 {
        assert(list[0] == list[0]);
    }
}

/// The sender of a key sends it to every node that comes to own it and did not
/// own it before; a node that is not the sender sends it to none.
pub proof fn law_sender_serves_every_new_owner(
    before: Seq<Seq<char>>,
    after: Seq<Seq<char>>,
    key: KeyView,
    replication: nat,
    self_name: Seq<char>,
    target: Seq<char>,
)
    ensures
        elected_sender(before, after, key, replication) == Some(self_name) ==> (targets_of(
            before,
            after,
            key,
            replication,
            self_name,
        ).contains(target) <==> owns(after, key, target, replication) && !owns(
            before,
            key,
            target,
            replication,
        )),
        elected_sender(before, after, key, replication) != Some(self_name) ==> targets_of(
            before,
            after,
            key,
            replication,
            self_name,
        ).len() == 0,
{
    lemma_first_among(owners_of(before, key, replication), after);
    law_promoted_nodes_are_the_new_owners(before, after, key, replication, target);
}

/// A run that begins asks the run that has the slot to stop, and no other; a run
/// that ends disturbs no other.
pub proof fn law_runs_leave_others_alone(
    runs: RereplicationsView,
    run: ActiveRereplication,
    other: ActiveRereplication,
)
    requires
        other.id != run.id,
    ensures
        runs.after_begin(run).active == Some(run),
        runs.after_begin(run).running.contains_key(run.id),
        !runs.after_begin(run).is_stopped(run),
        runs.after_begin(run).running.contains_key(other.id) == runs.running.contains_key(
            other.id,
        ),
        runs.active == Some(other) && runs.running.contains_key(other.id) ==> runs.after_begin(
            run,
        ).is_stopped(other),
        runs.active != Some(other) ==> runs.after_begin(run).is_stopped(other) == runs.is_stopped(
            other,
        ),
        !runs.after_finish(run).running.contains_key(run.id),
        runs.after_finish(run).running.contains_key(other.id) == runs.running.contains_key(
            other.id,
        ),
        runs.after_finish(run).is_stopped(other) == runs.is_stopped(other),
        runs.active == Some(run) ==> runs.after_finish(run).active is None,
        runs.active != Some(run) ==> runs.after_finish(run).active == runs.active,
{
}

/// Each target of a key has one turn, each key one after the other: a copy that
/// was made or missed is noted for the current key and target, and a key that
/// was gone is noted as gone.
pub proof fn law_each_copy_is_noted(run: CopyRunView, delivered: bool)
    ensures
        ({
            let copied = run.after_copy(delivered);
            let passed = run.after_key();
            let gone = run.after_gone();
            &&& copied.copies.len() == run.copies.len() + 1
            &&& copied.copies.last().key == run.keys[run.next as int]
            &&& copied.copies.last().target == targets_of(
                run.before,
                run.after,
                run.keys[run.next as int],
                run.replication,
                run.self_name,
            )[run.served as int]
            &&& copied.copies.last().delivered == delivered
            &&& copied.copies.drop_last() == run.copies
            &&& copied.served == run.served + 1 && copied.next == run.next && copied.gone == run.gone
            &&& passed.next == run.next + 1 && passed.served == 0 && passed.copies == run.copies
                && passed.gone == run.gone
            &&& gone.next == run.next + 1 && gone.served == 0 && gone.copies == run.copies
            &&& gone.gone == run.gone.push(run.keys[run.next as int])
            &&& copies_delivered(copied.copies) == copies_delivered(run.copies) + if delivered {
                1nat
            } else {
                0
            }
        }),
{
    assert(run.after_copy(delivered).copies.drop_last() =~= run.copies);
}

/// A count is exact up to the largest number it can hold, and stays there.
pub proof fn law_counts_stop_at_the_largest(count: nat)
    ensures
        count <= u64::MAX ==> saturated(count) == count,
        count > u64::MAX ==> saturated(count) == u64::MAX,
{
}

/// A run can send a copy just to a node whose address and token it knows.
pub proof fn law_reach_needs_address_and_token(run: CopyRunView, node: Seq<char>)
    ensures
        run.reaches(node) <==> run.addresses.contains_key(node) && run.tokens.contains_key(node),
{
}

/// Nothing is waited for past its deadline, nor when nothing is in the way; and
/// a transfer that is called off is given up, unless it was delivered.
pub proof fn law_waiting_and_transfers_end(
    busy: bool,
    now: u128,
    deadline: u128,
    wait: bool,
    transfer: Transfer,
    stop: bool,
    action: TransferAction,
)
    requires
        call_ensures(ring_change_waits, (busy, now, deadline), wait),
        call_ensures(Transfer::next_unless_stopped, (&transfer, stop), action),
    ensures
        wait <==> busy && now < deadline,
        transfer.delivered ==> action is Delivered,
        stop && !transfer.delivered ==> action is GiveUp,
        !stop ==> action == transfer.action(),
{
}

/// A copy gives way to what its target has, which can only be newer; it carries
/// the key, the value and the time to live, and the token of its target.
pub proof fn law_copies_give_way(
    run: CopyRun,
    value: &[u8],
    ttl: Option<u128>,
    write: Option<ForwardedWrite>,
)
    requires
        run.wf(),
        run@.phase == CopyPhase::Sending,
        call_ensures(CopyRun::write, (&run, value, ttl), write),
    ensures
        write matches Some(copy) && (copy@ matches WriteView::HandoffSet {
            key,
            value: sent,
            ttl: left,
            if_absent,
            token,
        } && if_absent && key == run@.keys[run@.next as int] && sent == value@ && left == ttl
            && token == run@.tokens[run@.target()]),
{
}

} // verus!
