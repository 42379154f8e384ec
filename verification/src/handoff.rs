//! One handoff to a joining node, step by step.
//!
//! The run decides; its owner performs what a step asks for and reports back:
//! it replays clears, reads an entry of the cache, sends it, marks its copy, or
//! takes the marks back.
use vstd::prelude::*;

use crate::cluster::dropped_member;
use crate::cluster::membership_view;
use crate::cluster::ring_dropped_a_member;
use crate::cluster::share_membership;
use crate::cluster::Membership;
use crate::cluster::MembershipView;
use crate::cluster::SharedRing;
use crate::cluster::SharedRingView;
use crate::forward::ForwardedWrite;
use crate::forward::WriteView;
use crate::key::copy_keys;
use crate::key::key_views;
use crate::key::Key;
use crate::key::KeyView;
use crate::limits::grace_after;
use crate::message::ClearScope;
use crate::migration::owed;
use crate::migration::owed_keys;
use crate::migration::scope_views;
use crate::migration::slot_view;
use crate::migration::ActiveMigration;
use crate::migration::MigrationGuard;
use crate::migration::SlotView;
use crate::ring::owns;
use crate::ring::HashRing;

verus! {

/// Where a handoff stands.
#[derive(Clone, Copy, Debug, PartialEq, Eq, Structural)]
pub enum HandoffPhase {
    /// Looking for the next key that is owed.
    Choosing,
    /// The clears that came in are replayed before that key goes out.
    ReplayingClears,
    /// The key's entry is read.
    Peeking,
    /// The entry is sent.
    Sending,
    /// Every owed key has had its turn; the clears that came in are replayed
    /// before the handoff is done.
    ClosingClears,
    /// The clears that came in while it was being done are replayed.
    LateClears,
    /// Discovery is told.
    Reporting,
    Done,
    /// Given up; the marks are to be taken back.
    GivenUp,
}

/// What a step asks for.
#[derive(Clone, Copy, Debug, PartialEq, Eq, Structural)]
pub enum HandoffStep {
    ReplayClears,
    /// Read the entry of `HandoffRun::current`.
    Peek,
    /// Send that entry, to be kept only where the joining node has none.
    Send,
    /// Mark this node's copy of the last of `HandoffRun::marked`.
    Mark,
    /// Look for the next key.
    Choose,
    /// Replay the clears that came in, and go on with
    /// `HandoffRun::closing_clears_replayed`.
    Close,
    Report,
    /// Hand copies to the nodes promoted by an eviction that the join hid.
    Rereplicate,
    Finish,
    /// Take back every mark of `HandoffRun::marked`, and stop.
    RollBack,
}

/// The keys that `node` does not own, in order.
pub open spec fn displaced_keys(
    keys: Seq<KeyView>,
    nodes: Seq<Seq<char>>,
    node: Seq<char>,
    replication: nat,
) -> Seq<KeyView>
    decreases keys.len(),
{
    if keys.len() == 0 {
        Seq::empty()
    } else {
        let rest = displaced_keys(keys.drop_last(), nodes, node, replication);
        if owns(nodes, keys.last(), node, replication) {
            rest
        } else {
            rest.push(keys.last())
        }
    }
}

proof fn lemma_displaced_keys_contains(
    keys: Seq<KeyView>,
    nodes: Seq<Seq<char>>,
    node: Seq<char>,
    replication: nat,
    key: KeyView,
)
    ensures
        displaced_keys(keys, nodes, node, replication).contains(key) <==> keys.contains(key)
            && !owns(nodes, key, node, replication),
    decreases keys.len(),
{
    if keys.len() > 0 {
        lemma_displaced_keys_contains(keys.drop_last(), nodes, node, replication, key);
        let rest = displaced_keys(keys.drop_last(), nodes, node, replication);
        let all = displaced_keys(keys, nodes, node, replication);
        if keys.contains(key) {
            let i = keys.index_of(key);
            if i < keys.len() - 1 {
                assert(keys.drop_last()[i] == key);
            }
        }
        if keys.drop_last().contains(key) {
            assert(keys[keys.drop_last().index_of(key)] == key);
        }
        assert(keys[keys.len() - 1] == keys.last());
        if rest.contains(key) {
            assert(all[rest.index_of(key)] == key);
        }
        if !owns(nodes, keys.last(), node, replication) {
            assert(all[rest.len() as int] == keys.last());
            if all.contains(key) {
                let i = all.index_of(key);
                if i < rest.len() {
                    assert(rest[i] == key);
                }
            }
        }
    }
}

/// A handoff as a whole.
#[verifier::ext_equal]
pub struct HandoffView {
    pub self_name: Seq<char>,
    pub joining_name: Seq<char>,
    pub replication: nat,
    pub before: Seq<Seq<char>>,
    pub after: SharedRingView,
    /// The keys the node held when the handoff was asked for.
    pub keys: Seq<KeyView>,
    /// How many of them have had their turn.
    pub next: nat,
    /// Those the joining node acknowledged, in order.
    pub delivered: Seq<KeyView>,
    /// Those that were owed and were gone when their turn came.
    pub gone: Seq<KeyView>,
    /// Those whose copies here are dead once the join is through.
    pub marked: Seq<KeyView>,
    /// What the node believed of the cluster before it took the join for granted.
    pub previous: Option<MembershipView>,
    pub phase: HandoffPhase,
}

impl HandoffView {
    #[verifier::opaque]
    pub open spec fn owes(self, key: KeyView) -> bool {
        owed(
            key,
            self.before,
            self.after.nodes,
            self.self_name,
            self.joining_name,
            self.replication,
        )
    }

    /// Whether this node is no owner of a key once the join is through.
    #[verifier::opaque]
    pub open spec fn displaced_from(self, key: KeyView) -> bool {
        !owns(self.after.nodes, key, self.self_name, self.replication)
    }

    /// How many of the first `count` keys are owed.
    pub open spec fn owed_before(self, count: nat) -> nat {
        owed_keys(
            self.keys.take(count as int),
            self.before,
            self.after.nodes,
            self.self_name,
            self.joining_name,
            self.replication,
        ).len()
    }

    /// Every owed key that has had its turn was delivered or gone, only owed
    /// keys were delivered, and just those delivered keys are marked of which
    /// this node is no owner any more.
    #[verifier::opaque]
    pub open spec fn wf(self) -> bool {
        &&& self.next <= self.keys.len()
        &&& forall|i: int|
            0 <= i < self.next && self.owes(#[trigger] self.keys[i]) ==> self.delivered.contains(
                self.keys[i],
            ) || self.gone.contains(self.keys[i])
        &&& forall|i: int| 0 <= i < self.delivered.len() ==> self.owes(#[trigger] self.delivered[i])
        &&& self.marked == displaced_keys(
            self.delivered,
            self.after.nodes,
            self.self_name,
            self.replication,
        )
        &&& self.delivered.len() + self.gone.len() == self.owed_before(self.next)
        &&& self.phase == HandoffPhase::ReplayingClears || self.phase == HandoffPhase::Peeking
            || self.phase == HandoffPhase::Sending ==> self.next < self.keys.len() && self.owes(
            self.keys[self.next as int],
        )
        &&& self.finished() ==> self.next == self.keys.len()
    }

    /// Whether every key has had its turn.
    pub open spec fn finished(self) -> bool {
        self.phase == HandoffPhase::ClosingClears || self.phase == HandoffPhase::LateClears
            || self.phase == HandoffPhase::Reporting || self.phase == HandoffPhase::Done
    }

    /// The handoff once the current key was found gone.
    pub open spec fn with_gone(self) -> HandoffView {
        HandoffView {
            next: self.next + 1,
            gone: self.gone.push(self.keys[self.next as int]),
            phase: HandoffPhase::Choosing,
            ..self
        }
    }

    /// The handoff once the current key was delivered.
    pub open spec fn with_delivered(self) -> HandoffView {
        let key = self.keys[self.next as int];
        HandoffView {
            next: self.next + 1,
            delivered: self.delivered.push(key),
            marked: if self.displaced_from(key) {
                self.marked.push(key)
            } else {
                self.marked
            },
            phase: HandoffPhase::Choosing,
            ..self
        }
    }

    /// The first key from the next on that is owed, or the number of keys.
    pub open spec fn next_owed(self, from: nat) -> nat
        decreases self.keys.len() - from,
    {
        if from >= self.keys.len() {
            self.keys.len()
        } else if self.owes(self.keys[from as int]) {
            from
        } else {
            self.next_owed(from + 1)
        }
    }
}

proof fn lemma_owed_before_step(run: HandoffView, count: nat)
    requires
        count < run.keys.len(),
    ensures
        run.owed_before(count + 1) == run.owed_before(count) + if run.owes(
            run.keys[count as int],
        ) {
            1nat
        } else {
            0
        },
{
    reveal(HandoffView::owes);
    reveal(Seq::filter);
    assert(run.keys.take((count + 1) as int).drop_last() =~= run.keys.take(count as int));
    assert(run.keys.take((count + 1) as int).last() == run.keys[count as int]);
}

proof fn lemma_owed_before_skips(run: HandoffView, from: nat, to: nat)
    requires
        from <= to <= run.keys.len(),
        forall|i: int| from <= i < to ==> !run.owes(#[trigger] run.keys[i]),
    ensures
        run.owed_before(to) == run.owed_before(from),
    decreases to - from,
{
    if from < to {
        lemma_owed_before_skips(run, from, (to - 1) as nat);
        lemma_owed_before_step(run, (to - 1) as nat);
        assert(!run.owes(run.keys[to - 1]));
    }
}

proof fn lemma_owed_before_bound(run: HandoffView, count: nat)
    requires
        count <= run.keys.len(),
    ensures
        run.owed_before(count) <= count,
    decreases count,
{
    if count == 0 {
        reveal(Seq::filter);
        assert(run.keys.take(0) =~= Seq::empty());
    } else {
        lemma_owed_before_bound(run, (count - 1) as nat);
        lemma_owed_before_step(run, (count - 1) as nat);
    }
}

/// Whether a handoff in phase `from` has a current key.
spec fn has_current(phase: HandoffPhase) -> bool {
    phase == HandoffPhase::ReplayingClears || phase == HandoffPhase::Peeking || phase
        == HandoffPhase::Sending
}

proof fn lemma_phase_keeps_wf(start: HandoffView, end: HandoffView)
    requires
        start.wf(),
        end == (HandoffView { phase: end.phase, previous: end.previous, ..start }),
        has_current(end.phase) ==> has_current(start.phase),
        end.finished() ==> start.finished(),
    ensures
        end.wf(),
{
    reveal(HandoffView::wf);
    reveal(HandoffView::owes);
    reveal(HandoffView::displaced_from);
    assert forall|i: int| 0 <= i < end.next && end.owes(#[trigger] end.keys[i]) implies
        end.delivered.contains(end.keys[i]) || end.gone.contains(end.keys[i]) by {
        assert(start.owes(start.keys[i]));
    }
    assert forall|i: int| 0 <= i < end.delivered.len() implies end.owes(
        #[trigger] end.delivered[i],
    ) by {
        assert(start.owes(start.delivered[i]));
    }
}

proof fn lemma_choice_keeps_wf(start: HandoffView, end: HandoffView)
    requires
        start.wf(),
        start.next <= end.next <= start.keys.len(),
        forall|i: int| start.next <= i < end.next ==> !start.owes(#[trigger] start.keys[i]),
        end == (HandoffView { phase: end.phase, next: end.next, ..start }),
        has_current(end.phase) ==> end.next < start.keys.len() && start.owes(
            start.keys[end.next as int],
        ),
        end.finished() ==> end.next == start.keys.len(),
    ensures
        end.wf(),
{
    lemma_owed_before_skips(start, start.next, end.next);
    reveal(HandoffView::wf);
    reveal(HandoffView::owes);
    reveal(HandoffView::displaced_from);
    assert forall|i: int| 0 <= i < end.next && end.owes(#[trigger] end.keys[i]) implies
        end.delivered.contains(end.keys[i]) || end.gone.contains(end.keys[i]) by {
        assert(start.owes(start.keys[i]));
    }
    assert forall|i: int| 0 <= i < end.delivered.len() implies end.owes(
        #[trigger] end.delivered[i],
    ) by {
        assert(start.owes(start.delivered[i]));
    }
}

proof fn lemma_current(run: HandoffView)
    requires
        run.wf(),
    ensures
        run.next <= run.keys.len(),
        has_current(run.phase) ==> run.next < run.keys.len() && run.owes(
            run.keys[run.next as int],
        ),
        run.delivered.len() <= run.next,
{
    reveal(HandoffView::wf);
    lemma_owed_before_bound(run, run.next);
    reveal(HandoffView::owes);
    reveal(HandoffView::displaced_from);
}

proof fn lemma_gone_keeps_wf(start: HandoffView)
    requires
        start.wf(),
        start.next < start.keys.len(),
        start.owes(start.keys[start.next as int]),
    ensures
        start.with_gone().wf(),
{
    lemma_owed_before_step(start, start.next);
    reveal(HandoffView::wf);
    reveal(HandoffView::owes);
    reveal(HandoffView::displaced_from);
    let end = start.with_gone();
    let key = start.keys[start.next as int];
    assert forall|i: int| 0 <= i < end.next && end.owes(#[trigger] end.keys[i]) implies
        end.delivered.contains(end.keys[i]) || end.gone.contains(end.keys[i]) by {
        assert(start.owes(start.keys[i]));
        if i == start.next {
            assert(end.gone[start.gone.len() as int] == key);
        } else if start.gone.contains(start.keys[i]) {
            assert(end.gone[start.gone.index_of(start.keys[i])] == start.keys[i]);
        }
    }
    assert forall|i: int| 0 <= i < end.delivered.len() implies end.owes(
        #[trigger] end.delivered[i],
    ) by {
        assert(start.owes(start.delivered[i]));
    }
}

proof fn lemma_delivered_keeps_wf(start: HandoffView)
    requires
        start.wf(),
        start.next < start.keys.len(),
        start.owes(start.keys[start.next as int]),
    ensures
        start.with_delivered().wf(),
{
    lemma_owed_before_step(start, start.next);
    reveal(HandoffView::wf);
    reveal(HandoffView::owes);
    reveal(HandoffView::displaced_from);
    let end = start.with_delivered();
    let key = start.keys[start.next as int];
    assert(start.delivered.push(key).drop_last() =~= start.delivered);
    assert forall|i: int| 0 <= i < end.next && end.owes(#[trigger] end.keys[i]) implies
        end.delivered.contains(end.keys[i]) || end.gone.contains(end.keys[i]) by {
        assert(start.owes(start.keys[i]));
        if i == start.next {
            assert(end.delivered[start.delivered.len() as int] == key);
        } else if start.delivered.contains(start.keys[i]) {
            assert(end.delivered[start.delivered.index_of(start.keys[i])] == start.keys[i]);
        }
    }
    assert forall|i: int| 0 <= i < end.delivered.len() implies end.owes(
        #[trigger] end.delivered[i],
    ) by {
        if i < start.delivered.len() {
            assert(start.owes(start.delivered[i]));
        } else {
            assert(start.owes(key));
        }
    }
}

/// A handoff in progress.
pub struct HandoffRun {
    self_name: String,
    joining_name: String,
    replication: usize,
    before_ring: HashRing,
    after_ring: SharedRing,
    keys: Vec<Key>,
    next: usize,
    sent: usize,
    marked: Vec<Key>,
    previous: Option<Membership>,
    phase: HandoffPhase,
    delivered: Ghost<Seq<KeyView>>,
    gone: Ghost<Seq<KeyView>>,
}

impl View for HandoffRun {
    type V = HandoffView;

    closed spec fn view(&self) -> HandoffView {
        HandoffView {
            self_name: self.self_name@,
            joining_name: self.joining_name@,
            replication: self.replication as nat,
            before: self.before_ring@,
            after: self.after_ring@,
            keys: key_views(self.keys@),
            next: self.next as nat,
            delivered: self.delivered@,
            gone: self.gone@,
            marked: key_views(self.marked@),
            previous: membership_view(self.previous),
            phase: self.phase,
        }
    }
}

impl HandoffRun {
    pub closed spec fn wf(self) -> bool {
        self@.wf() && self.sent == self@.delivered.len()
    }

    /// A handoff of which nothing has been done.
    pub fn new(
        self_name: String,
        joining_name: String,
        replication: usize,
        before_ring: HashRing,
        after_ring: SharedRing,
        keys: Vec<Key>,
    ) -> (run: HandoffRun)
        ensures
            run.wf(),
            run@ == (HandoffView {
                self_name: self_name@,
                joining_name: joining_name@,
                replication: replication as nat,
                before: before_ring@,
                after: after_ring@,
                keys: key_views(keys@),
                next: 0,
                delivered: Seq::empty(),
                gone: Seq::empty(),
                marked: Seq::empty(),
                previous: None,
                phase: HandoffPhase::Choosing,
            }),
    {
        let run = HandoffRun {
            self_name,
            joining_name,
            replication,
            before_ring,
            after_ring,
            keys,
            next: 0,
            sent: 0,
            marked: Vec::new(),
            previous: None,
            phase: HandoffPhase::Choosing,
            delivered: Ghost(Seq::empty()),
            gone: Ghost(Seq::empty()),
        };
        assert(key_views(run.marked@) =~= Seq::empty());
        assert(run@.wf()) by {
            reveal(HandoffView::wf);
            reveal(HandoffView::owes);
            reveal(HandoffView::displaced_from);
        }
        run
    }

    pub fn phase(&self) -> (phase: HandoffPhase)
        ensures
            phase == self@.phase,
    {
        self.phase
    }

    /// The key whose turn it is.
    pub fn current(&self) -> (key: &Key)
        requires
            self.wf(),
            self@.phase == HandoffPhase::Peeking || self@.phase == HandoffPhase::Sending,
        ensures
            key@ == self@.keys[self@.next as int],
    {
        proof {
            lemma_current(self@);
        }
        &self.keys[self.next]
    }

    /// The current entry as it is sent to the joining node, whose token is
    /// `token`. It gives way to what the node has: a write that came after the
    /// entry was read may have been there first.
    pub fn write<'a>(&'a self, value: &'a [u8], ttl: Option<u128>, token: &'a str) -> (write:
        ForwardedWrite<'a>)
        requires
            self.wf(),
            self@.phase == HandoffPhase::Sending,
        ensures
            write@ == (WriteView::HandoffSet {
                key: self@.keys[self@.next as int],
                value: value@,
                ttl,
                if_absent: true,
                token: token@,
            }),
    {
        ForwardedWrite::HandoffSet { key: self.current(), value, ttl, if_absent: true, token }
    }

    /// How many entries the joining node acknowledged.
    pub fn sent_count(&self) -> (count: usize)
        requires
            self.wf(),
        ensures
            count == self@.delivered.len(),
    {
        self.sent
    }

    /// The keys marked so far.
    pub fn marked(&self) -> (marked: &Vec<Key>)
        ensures
            key_views(marked@) == self@.marked,
    {
        &self.marked
    }

    /// What the node believed before the handoff took the join for granted.
    pub fn previous(&self) -> (previous: &Option<Membership>)
        ensures
            membership_view(*previous) == self@.previous,
    {
        &self.previous
    }

    fn owes_at(&self, index: usize) -> (result: bool)
        requires
            index < self.keys.len(),
        ensures
            result == self@.owes(self@.keys[index as int]),
    {
        reveal(HandoffView::owes);
        self.after_ring.ring.is_owner(
            &self.keys[index],
            self.joining_name.as_str(),
            self.replication,
        ) && self.before_ring.is_owner(
            &self.keys[index],
            self.self_name.as_str(),
            self.replication,
        )
    }

    /// Moves on to the next key that is owed, unless the handoff was cancelled.
    pub fn choose_key(&mut self, abort_requested: bool) -> (step: HandoffStep)
        requires
            old(self).wf(),
            old(self)@.phase == HandoffPhase::Choosing,
        ensures
            final(self).wf(),
            ({
                let next = old(self)@.next_owed(old(self)@.next);
                if abort_requested {
                    &&& step == HandoffStep::RollBack
                    &&& final(self)@ == (HandoffView {
                        phase: HandoffPhase::GivenUp,
                        ..old(self)@
                    })
                } else if next < old(self)@.keys.len() {
                    &&& step == HandoffStep::ReplayClears
                    &&& final(self)@ == (HandoffView {
                        next,
                        phase: HandoffPhase::ReplayingClears,
                        ..old(self)@
                    })
                } else {
                    &&& step == HandoffStep::Close
                    &&& final(self)@ == (HandoffView {
                        next,
                        phase: HandoffPhase::ClosingClears,
                        ..old(self)@
                    })
                }
            }),
    {
        let ghost start = self@;
        proof {
            lemma_current(start);
        }
        if abort_requested {
            self.phase = HandoffPhase::GivenUp;
            proof {
                lemma_phase_keeps_wf(start, self@);
            }
            return HandoffStep::RollBack;
        }
        let mut index: usize = self.next;
        while index < self.keys.len() && !self.owes_at(index)
            invariant
                start.next <= index <= self.keys.len(),
                self@ == start,
                start.next_owed(start.next) == start.next_owed(index as nat),
                forall|i: int|
                    start.next <= i < index ==> !start.owes(#[trigger] start.keys[i]),
            decreases self.keys.len() - index,
        {
            index += 1;
        }
        self.next = index;
        if index < self.keys.len() {
            self.phase = HandoffPhase::ReplayingClears;
            proof {
                lemma_choice_keeps_wf(start, self@);
            }
            HandoffStep::ReplayClears
        } else {
            self.phase = HandoffPhase::ClosingClears;
            proof {
                lemma_choice_keeps_wf(start, self@);
            }
            HandoffStep::Close
        }
    }

    /// The clears before a key were replayed, or one could not be.
    pub fn clears_replayed(&mut self, delivered: bool) -> (step: HandoffStep)
        requires
            old(self).wf(),
            old(self)@.phase == HandoffPhase::ReplayingClears,
        ensures
            final(self).wf(),
            delivered ==> step == HandoffStep::Peek && final(self)@ == (HandoffView {
                phase: HandoffPhase::Peeking,
                ..old(self)@
            }),
            !delivered ==> step == HandoffStep::RollBack && final(self)@ == (HandoffView {
                phase: HandoffPhase::GivenUp,
                ..old(self)@
            }),
    {
        let ghost start = self@;
        if delivered {
            self.phase = HandoffPhase::Peeking;
        } else {
            self.phase = HandoffPhase::GivenUp;
        }
        proof {
            lemma_phase_keeps_wf(start, self@);
        }
        if delivered {
            HandoffStep::Peek
        } else {
            HandoffStep::RollBack
        }
    }

    /// The current key has an entry, or it is gone and there is nothing to send.
    pub fn peeked(&mut self, present: bool) -> (step: HandoffStep)
        requires
            old(self).wf(),
            old(self)@.phase == HandoffPhase::Peeking,
        ensures
            final(self).wf(),
            present ==> step == HandoffStep::Send && final(self)@ == (HandoffView {
                phase: HandoffPhase::Sending,
                ..old(self)@
            }),
            !present ==> step == HandoffStep::Choose && final(self)@ == old(self)@.with_gone(),
    {
        let ghost start = self@;
        let total: usize = self.keys.len();
        proof {
            lemma_current(start);
            assert(self.next < total);
        }
        if present {
            self.phase = HandoffPhase::Sending;
            proof {
                lemma_phase_keeps_wf(start, self@);
            }
            return HandoffStep::Send;
        }
        self.gone = Ghost(start.gone.push(start.keys[start.next as int]));
        self.next = self.next + 1;
        self.phase = HandoffPhase::Choosing;
        proof {
            lemma_gone_keeps_wf(start);
            assert(self@ =~= start.with_gone());
        }
        HandoffStep::Choose
    }

    /// The current entry was acknowledged, or could not be delivered. A copy of
    /// which this node is no owner any more is marked only once it has been.
    pub fn transferred(&mut self, delivered: bool) -> (step: HandoffStep)
        requires
            old(self).wf(),
            old(self)@.phase == HandoffPhase::Sending,
        ensures
            final(self).wf(),
            ({
                let key = old(self)@.keys[old(self)@.next as int];
                if !delivered {
                    &&& step == HandoffStep::RollBack
                    &&& final(self)@ == (HandoffView {
                        phase: HandoffPhase::GivenUp,
                        ..old(self)@
                    })
                } else {
                    &&& step == if old(self)@.displaced_from(key) {
                        HandoffStep::Mark
                    } else {
                        HandoffStep::Choose
                    }
                    &&& final(self)@ == old(self)@.with_delivered()
                }
            }),
    {
        let ghost start = self@;
        let total: usize = self.keys.len();
        proof {
            lemma_current(start);
            assert(self.next < total);
            assert(self.sent <= self.next);
        }
        if !delivered {
            self.phase = HandoffPhase::GivenUp;
            proof {
                lemma_phase_keeps_wf(start, self@);
            }
            return HandoffStep::RollBack;
        }
        let ghost key = start.keys[start.next as int];
        reveal(HandoffView::displaced_from);
        let displaced = !self.after_ring.ring.is_owner(
            &self.keys[self.next],
            self.self_name.as_str(),
            self.replication,
        );
        self.sent = self.sent + 1;
        self.delivered = Ghost(start.delivered.push(key));
        if displaced {
            let ghost marks = self.marked@;
            let copy = self.keys[self.next].clone();
            self.marked.push(copy);
            assert(key_views(self.marked@) =~= key_views(marks).push(key));
        }
        self.next = self.next + 1;
        self.phase = HandoffPhase::Choosing;
        proof {
            lemma_delivered_keeps_wf(start);
            assert(self@ =~= start.with_delivered());
        }
        if displaced {
            HandoffStep::Mark
        } else {
            HandoffStep::Choose
        }
    }

    /// The last clears before the handoff is done were replayed, and it is now:
    /// from here on the node takes the post-join ring for granted, and what it
    /// believed before is kept. Or one could not be replayed, and the handoff is
    /// given up; the node believes what it did.
    pub fn closing_clears_replayed(
        &mut self,
        delivered: bool,
        known_ring: &mut Option<Membership>,
        guard: &mut MigrationGuard,
        slot: &mut Option<ActiveMigration>,
        now: u128,
    ) -> (step: HandoffStep)
        requires
            old(self).wf(),
            old(self)@.phase == HandoffPhase::ClosingClears,
        ensures
            final(self).wf(),
            delivered ==> {
                &&& step == HandoffStep::ReplayClears
                &&& final(guard).is_completed()
                &&& membership_view(*final(known_ring)) == Some(
                    MembershipView { ring: old(self)@.after, replication: old(self)@.replication },
                )
                &&& final(self)@ == (HandoffView {
                    previous: membership_view(*old(known_ring)),
                    phase: HandoffPhase::LateClears,
                    ..old(self)@
                })
                &&& slot_view(*final(slot)) == match slot_view(*old(slot)) {
                    Some(active) => Some(
                        SlotView {
                            completed_at: Some(now),
                            forwarding_grace: grace_after(old(self)@.delivered.len()) as u128,
                            marked_keys: old(self)@.marked,
                            pre_completion_ring: membership_view(*old(known_ring)),
                            ..active
                        },
                    ),
                    None => None,
                }
            },
            !delivered ==> {
                &&& step == HandoffStep::RollBack
                &&& *final(known_ring) == *old(known_ring)
                &&& *final(guard) == *old(guard)
                &&& *final(slot) == *old(slot)
                &&& final(self)@ == (HandoffView { phase: HandoffPhase::GivenUp, ..old(self)@ })
            },
    {
        let ghost start = self@;
        if !delivered {
            self.phase = HandoffPhase::GivenUp;
            proof {
                lemma_phase_keeps_wf(start, self@);
            }
            return HandoffStep::RollBack;
        }
        let flipped = Membership {
            ring: self.after_ring.share(),
            replication: self.replication,
        };
        self.previous = known_ring.take();
        *known_ring = Some(flipped);
        guard.completed(
            slot,
            self.sent,
            copy_keys(&self.marked),
            share_membership(&self.previous),
            now,
        );
        self.phase = HandoffPhase::LateClears;
        proof {
            lemma_phase_keeps_wf(start, self@);
        }
        HandoffStep::ReplayClears
    }

    /// The clears that came in while the handoff was being done were replayed,
    /// as far as they could be: it is too late to give up.
    pub fn late_clears_replayed(&mut self) -> (step: HandoffStep)
        requires
            old(self).wf(),
            old(self)@.phase == HandoffPhase::LateClears,
        ensures
            final(self).wf(),
            step == HandoffStep::Report,
            final(self)@ == (HandoffView { phase: HandoffPhase::Reporting, ..old(self)@ }),
    {
        let ghost start = self@;
        self.phase = HandoffPhase::Reporting;
        proof {
            lemma_phase_keeps_wf(start, self@);
        }
        HandoffStep::Report
    }

    /// Discovery was told, or could not be. What the node believed before may
    /// still list a node that is gone by now; the copies that its going calls
    /// for are then made.
    pub fn reported(&mut self) -> (step: HandoffStep)
        requires
            old(self).wf(),
            old(self)@.phase == HandoffPhase::Reporting,
        ensures
            final(self).wf(),
            final(self)@ == (HandoffView { phase: HandoffPhase::Done, ..old(self)@ }),
            step == match old(self)@.previous {
                Some(previous) => if dropped_member(
                    previous.ring.nodes,
                    old(self)@.after.nodes,
                ) {
                    HandoffStep::Rereplicate
                } else {
                    HandoffStep::Finish
                },
                None => HandoffStep::Finish,
            },
    {
        let ghost start = self@;
        self.phase = HandoffPhase::Done;
        proof {
            lemma_phase_keeps_wf(start, self@);
        }
        match &self.previous {
            Some(previous) => if ring_dropped_a_member(
                &previous.ring.ring,
                &self.after_ring.ring,
            ) {
                HandoffStep::Rereplicate
            } else {
                HandoffStep::Finish
            },
            None => HandoffStep::Finish,
        }
    }
}

/// What holds of every well-formed handoff as a whole holds of a run.
pub proof fn law_handoff_run_is_well_formed(run: HandoffRun)
    requires
        run.wf(),
    ensures
        run@.wf(),
{
}

/// A handoff that is reported to discovery has left nothing behind: every key
/// that was owed was delivered, or was gone when its turn came.
pub proof fn law_finished_handoff_leaves_nothing_owed(run: HandoffView, key: KeyView)
    requires
        run.wf(),
        run.finished(),
        run.keys.contains(key),
        run.owes(key),
    ensures
        run.delivered.contains(key) || run.gone.contains(key),
{
    reveal(HandoffView::wf);
    reveal(HandoffView::owes);
    reveal(HandoffView::displaced_from);
    let i = run.keys.index_of(key);
    assert(run.owes(run.keys[i]));
}

/// The number of entries a handoff is acknowledged with is the number that was
/// delivered or found gone in the end.
pub proof fn law_acknowledged_count_is_met(run: HandoffView)
    requires
        run.wf(),
        run.finished(),
    ensures
        run.delivered.len() + run.gone.len() == owed_keys(
            run.keys,
            run.before,
            run.after.nodes,
            run.self_name,
            run.joining_name,
            run.replication,
        ).len(),
{
    reveal(HandoffView::wf);
    assert(run.keys.take(run.keys.len() as int) =~= run.keys);
}

/// A copy is marked dead only if the joining node has acknowledged it and this
/// node does not own the key once the join is through; and then it is.
pub proof fn law_only_delivered_displaced_copies_are_marked(run: HandoffView, key: KeyView)
    requires
        run.wf(),
    ensures
        run.marked.contains(key) <==> run.delivered.contains(key) && run.displaced_from(key),
{
    reveal(HandoffView::wf);
    reveal(HandoffView::owes);
    reveal(HandoffView::displaced_from);
    lemma_displaced_keys_contains(
        run.delivered,
        run.after.nodes,
        run.self_name,
        run.replication,
        key,
    );
}

/// Takes the clears that are waiting in a slot, in order.
pub fn take_pending_clears(slot: &mut Option<ActiveMigration>) -> (clears: Vec<ClearScope>)
    ensures
        match slot_view(*old(slot)) {
            Some(active) => {
                &&& scope_views(clears@) == active.pending_clears
                &&& slot_view(*final(slot)) == Some(
                    SlotView { pending_clears: Seq::empty(), ..active },
                )
            },
            None => clears@.len() == 0 && *final(slot) is None,
        },
{
    let mut clears: Vec<ClearScope> = Vec::new();
    match slot.as_mut() {
        Some(active) => {
            std::mem::swap(&mut clears, &mut active.pending_clears);
            assert(scope_views(active.pending_clears@) =~= Seq::empty());
        },
        None => {},
    }
    clears
}

/// A handoff owes the joining node just the keys that this node owns before the
/// join and the joining node after it; and this node is displaced from just the
/// keys that it does not own after it.
pub proof fn law_handoff_goes_by_ownership(run: HandoffView, key: KeyView)
    ensures
        run.owes(key) <==> owns(run.before, key, run.self_name, run.replication) && owns(
            run.after.nodes,
            key,
            run.joining_name,
            run.replication,
        ),
        run.displaced_from(key) <==> !owns(
            run.after.nodes,
            key,
            run.self_name,
            run.replication,
        ),
{
    reveal(HandoffView::owes);
    reveal(HandoffView::displaced_from);
}

/// The next key of a handoff is the first one from there on that is owed; none
/// is passed over.
pub proof fn law_no_owed_key_is_passed_over(run: HandoffView, from: nat, index: int)
    requires
        from <= run.keys.len(),
    ensures
        from <= run.next_owed(from) <= run.keys.len(),
        from <= index < run.next_owed(from) ==> !(owns(
            run.before,
            run.keys[index],
            run.self_name,
            run.replication,
        ) && owns(run.after.nodes, run.keys[index], run.joining_name, run.replication)),
        run.next_owed(from) < run.keys.len() ==> owns(
            run.before,
            run.keys[run.next_owed(from) as int],
            run.self_name,
            run.replication,
        ) && owns(
            run.after.nodes,
            run.keys[run.next_owed(from) as int],
            run.joining_name,
            run.replication,
        ),
    decreases run.keys.len() - from,
{
    if from < run.keys.len() {
        law_handoff_goes_by_ownership(run, run.keys[from as int]);
        if !run.owes(run.keys[from as int]) {
            law_no_owed_key_is_passed_over(run, from + 1, index);
        }
    }
}

/// A key that was delivered, or was found gone, has had its turn and is counted
/// as that alone. Its copy here is marked just if it was delivered and this node
/// does not own the key after the join.
pub proof fn law_each_key_has_one_turn(run: HandoffView)
    requires
        run.next < run.keys.len(),
    ensures
        ({
            let key = run.keys[run.next as int];
            let delivered = run.with_delivered();
            let gone = run.with_gone();
            &&& delivered.next == run.next + 1 && gone.next == run.next + 1
            &&& delivered.phase == HandoffPhase::Choosing && gone.phase == HandoffPhase::Choosing
            &&& delivered.delivered == run.delivered.push(key) && delivered.gone == run.gone
            &&& gone.gone == run.gone.push(key) && gone.delivered == run.delivered
            &&& gone.marked == run.marked
            &&& delivered.marked == if owns(
                run.after.nodes,
                key,
                run.self_name,
                run.replication,
            ) {
                run.marked
            } else {
                run.marked.push(key)
            }
            &&& delivered.keys == run.keys && gone.keys == run.keys
            &&& delivered.after == run.after && gone.after == run.after
            &&& delivered.previous == run.previous && gone.previous == run.previous
        }),
{
    law_handoff_goes_by_ownership(run, run.keys[run.next as int]);
}

/// The copies that are marked in a handoff are those of delivered keys that this
/// node does not own after the join, and no others.
pub proof fn law_marks_are_for_displaced_keys(run: HandoffView, key: KeyView)
    requires
        run.wf(),
    ensures
        run.marked.contains(key) <==> run.delivered.contains(key) && !owns(
            run.after.nodes,
            key,
            run.self_name,
            run.replication,
        ),
        run.delivered.contains(key) ==> owns(
            run.after.nodes,
            key,
            run.joining_name,
            run.replication,
        ) && owns(run.before, key, run.self_name, run.replication),
{
    law_only_delivered_displaced_copies_are_marked(run, key);
    law_handoff_goes_by_ownership(run, key);
    reveal(HandoffView::wf);
    if run.delivered.contains(key) {
        assert(run.owes(run.delivered[run.delivered.index_of(key)]));
    }
}

/// An entry that is handed over to a joining node gives way to what the node has;
/// it carries the key, the value and the time to live, and the node's token.
pub proof fn law_handed_over_entries_give_way(
    run: HandoffRun,
    value: &[u8],
    ttl: Option<u128>,
    token: &str,
    write: ForwardedWrite,
)
    requires
        run.wf(),
        run@.phase == HandoffPhase::Sending,
        call_ensures(HandoffRun::write, (&run, value, ttl, token), write),
    ensures
        write@ matches WriteView::HandoffSet {
            key,
            value: sent,
            ttl: left,
            if_absent,
            token: shown,
        } && if_absent && key == run@.keys[run@.next as int] && sent == value@ && left == ttl
            && shown == token@,
{
}

/// The clears that wait are taken all at once, in their order, and each once.
pub proof fn law_waiting_clears_are_taken_once(
    slot: &mut Option<ActiveMigration>,
    clears: Vec<ClearScope>,
)
    requires
        call_ensures(take_pending_clears, (slot,), clears),
        *old(slot) is Some,
    ensures
        scope_views(clears@) == slot_view(*old(slot))->0.pending_clears,
        slot_view(*final(slot)) matches Some(after) && after.pending_clears.len() == 0
            && after.joining_name == slot_view(*old(slot))->0.joining_name && after.completed_at
            == slot_view(*old(slot))->0.completed_at && after.marked_keys == slot_view(
            *old(slot),
        )->0.marked_keys,
{
}

/// A handoff that cannot deliver an entry, or that was cancelled, is given up
/// with its marks to be taken back; nothing of it is counted as delivered, and
/// the marks are those it had.
pub proof fn law_failed_handoff_rolls_back(
    run: &mut HandoffRun,
    step: HandoffStep,
)
    requires
        old(run).wf(),
        (old(run)@.phase == HandoffPhase::Sending && call_ensures(
            HandoffRun::transferred,
            (run, false),
            step,
        )) || (old(run)@.phase == HandoffPhase::Choosing && call_ensures(
            HandoffRun::choose_key,
            (run, true),
            step,
        )) || (old(run)@.phase == HandoffPhase::ReplayingClears && call_ensures(
            HandoffRun::clears_replayed,
            (run, false),
            step,
        )),
    ensures
        step is RollBack,
        final(run)@.phase == HandoffPhase::GivenUp,
        final(run)@.marked == old(run)@.marked,
        final(run)@.delivered == old(run)@.delivered,
{
}

/// A handoff whose last clears were delivered takes the join for granted: the
/// node believes in the ring after the join, what it believed before is kept
/// with the marks, and the slot is kept too. One whose clears could not be
/// delivered changes nothing of that.
pub proof fn law_finished_handoff_takes_the_join_for_granted(
    run: &mut HandoffRun,
    delivered: bool,
    known_ring: &mut Option<Membership>,
    guard: &mut MigrationGuard,
    slot: &mut Option<ActiveMigration>,
    now: u128,
    step: HandoffStep,
)
    requires
        old(run).wf(),
        old(run)@.phase == HandoffPhase::ClosingClears,
        call_ensures(
            HandoffRun::closing_clears_replayed,
            (run, delivered, known_ring, guard, slot, now),
            step,
        ),
    ensures
        delivered ==> (membership_view(*final(known_ring)) matches Some(known) && known.ring
            == old(run)@.after && known.replication == old(run)@.replication)
            && final(guard).is_completed() && final(run)@.previous == membership_view(
            *old(known_ring),
        ),
        delivered && *old(slot) is Some ==> (slot_view(*final(slot)) matches Some(after)
            && after.completed_at == Some(now) && after.marked_keys == old(run)@.marked
            && after.pre_completion_ring == membership_view(*old(known_ring))),
        !delivered ==> step is RollBack && *final(known_ring) == *old(known_ring) && *final(slot)
            == *old(slot) && final(run)@.marked == old(run)@.marked,
{
}

/// Once a handoff is reported, copies are made just if the ring that was believed
/// before it lists a node that is gone after it.
pub proof fn law_hidden_eviction_is_made_up_for(run: &mut HandoffRun, step: HandoffStep)
    requires
        old(run).wf(),
        old(run)@.phase == HandoffPhase::Reporting,
        call_ensures(HandoffRun::reported, (run,), step),
    ensures
        final(run)@.phase is Done,
        step is Rereplicate || step is Finish,
        old(run)@.previous is None ==> step is Finish,
        old(run)@.previous matches Some(previous) ==> (step is Rereplicate <==> exists|
            node: Seq<char>,
        | #[trigger]
            previous.ring.nodes.contains(node) && !old(run)@.after.nodes.contains(node)),
{
}

} // verus!
